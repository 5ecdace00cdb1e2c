//! What holds of every answer of the rolling arg-min / arg-max kernels.

use vstd::prelude::*;

use super::{
    all_valid, arg_best, has_valid, is_first_best, lemma_count_all_valid,
    lemma_first_best_exists, lemma_first_best_is, lemma_window_monotone,
    rolling_arg_best_no_nulls, rolling_arg_best_nulls, rolling_arg_best_trailing,
    trailing_window, window_of, IdxSize,
};
use crate::min_max::{
    law_max_prefers_larger, law_min_prefers_smaller, MaxPropagateNan, MinMaxPolicy,
    MinPropagateNan, Scalar,
};

verus! {

/// An arg-best answer, added to its window's start, is the first best
/// position of the window.
proof fn lemma_answer_position<P: MinMaxPolicy>(
    values: Seq<Scalar>,
    valid: Seq<bool>,
    start: int,
    end: int,
)
    requires
        0 <= start <= end <= values.len(),
        values.len() <= IdxSize::MAX,
        arg_best::<P>(values, valid, start, end) is Some,
    ensures
        is_first_best::<P>(
            values,
            valid,
            start,
            end,
            start + arg_best::<P>(values, valid, start, end)->0,
        ),
{
    let x = lemma_first_best_exists::<P>(values, valid, start, end);
    lemma_first_best_is::<P>(values, valid, start, end, x);
}

/// Every answer of a rolling arg-best over a column with a validity mask
/// points into the row's window at a non-null value that no non-null value
/// of the window beats, and that every earlier non-null value of the window
/// is worse than: the value at `start + answer` is the rolling best, and
/// ties go to the earliest position.
pub proof fn law_answer_is_first_best<P: MinMaxPolicy>(
    values: Seq<Scalar>,
    valid: Seq<bool>,
    window_size: int,
    min_periods: int,
    center: bool,
    i: int,
)
    requires
        values.len() <= IdxSize::MAX,
        valid.len() == values.len(),
        0 <= i < values.len(),
        window_size >= 1 || (center && window_size >= 0),
        rolling_arg_best_nulls::<P>(values, valid, window_size, min_periods, center)[i] is Some,
    ensures
        ({
            let w = window_of(center, i, window_size, values.len() as int);
            let r = rolling_arg_best_nulls::<P>(
                values,
                valid,
                window_size,
                min_periods,
                center,
            )[i]->0;
            is_first_best::<P>(values, valid, w.0, w.1, w.0 + r)
        }),
{
    let w = window_of(center, i, window_size, values.len() as int);
    lemma_window_monotone(center, i, i, window_size, values.len() as int);
    lemma_answer_position::<P>(values, valid, w.0, w.1);
}

/// A window that holds a non-null NaN is answered by its first non-null NaN.
pub proof fn law_nan_propagates<P: MinMaxPolicy>(
    values: Seq<Scalar>,
    valid: Seq<bool>,
    window_size: int,
    min_periods: int,
    center: bool,
    i: int,
    k: int,
)
    requires
        values.len() <= IdxSize::MAX,
        valid.len() == values.len(),
        0 <= i < values.len(),
        window_size >= 1 || (center && window_size >= 0),
        rolling_arg_best_nulls::<P>(values, valid, window_size, min_periods, center)[i] is Some,
        window_of(center, i, window_size, values.len() as int).0 <= k < window_of(
            center,
            i,
            window_size,
            values.len() as int,
        ).1,
        valid[k],
        values[k] == Scalar::Nan,
    ensures
        ({
            let w = window_of(center, i, window_size, values.len() as int);
            let r = rolling_arg_best_nulls::<P>(
                values,
                valid,
                window_size,
                min_periods,
                center,
            )[i]->0;
            &&& values[w.0 + r] == Scalar::Nan
            &&& forall|j: int| w.0 <= j < w.0 + r && valid[j] ==> values[j] != Scalar::Nan
        }),
{
    let w = window_of(center, i, window_size, values.len() as int);
    let r = rolling_arg_best_nulls::<P>(values, valid, window_size, min_periods, center)[i]->0;
    law_answer_is_first_best::<P>(values, valid, window_size, min_periods, center, i);
    let x = w.0 + r;
    assert(P::rank(values[k]) <= P::rank(values[x]));
    if let Scalar::Value(v) = values[x] {
        P::lemma_nan_ranks_highest(v);
    }
    assert forall|j: int| w.0 <= j < x && valid[j] implies values[j] != Scalar::Nan by {
        assert(P::rank(values[j]) < P::rank(values[x]));
    }
}

/// A validity mask that marks every row non-null gives the same answers as
/// the kernel for columns without nulls.
pub proof fn law_full_mask_matches_no_nulls<P: MinMaxPolicy>(
    values: Seq<Scalar>,
    window_size: int,
    min_periods: int,
    center: bool,
)
    requires
        window_size >= 1 || (center && window_size >= 0),
    ensures
        rolling_arg_best_nulls::<P>(
            values,
            all_valid(values.len()),
            window_size,
            min_periods,
            center,
        ) == rolling_arg_best_no_nulls::<P>(values, window_size, min_periods, center),
{
    let a = rolling_arg_best_nulls::<P>(
        values,
        all_valid(values.len()),
        window_size,
        min_periods,
        center,
    );
    let b = rolling_arg_best_no_nulls::<P>(values, window_size, min_periods, center);
    assert forall|i: int| 0 <= i < values.len() implies a[i] == b[i] by {
        let w = window_of(center, i, window_size, values.len() as int);
        lemma_window_monotone(center, i, i, window_size, values.len() as int);
        lemma_count_all_valid(values.len(), w.0, w.1);
    }
    assert(a =~= b);
}

/// With `min_periods <= window_size`, the single-pass kernel for trailing
/// windows gives the same answers as the generic window kernel.
pub proof fn law_trailing_fast_path_matches_window<P: MinMaxPolicy>(
    values: Seq<Scalar>,
    window_size: int,
    min_periods: int,
)
    requires
        1 <= window_size,
        min_periods <= window_size,
    ensures
        rolling_arg_best_trailing::<P>(values, window_size, min_periods)
            == rolling_arg_best_no_nulls::<P>(values, window_size, min_periods, false),
{
    let a = rolling_arg_best_trailing::<P>(values, window_size, min_periods);
    let b = rolling_arg_best_no_nulls::<P>(values, window_size, min_periods, false);
    assert forall|i: int| 0 <= i < values.len() implies a[i] == b[i] by {
        let w = trailing_window(i, window_size);
        assert(window_of(false, i, window_size, values.len() as int) == w);
    }
    assert(a =~= b);
}

/// The best rank among the non-null values of `values[start..end]`.
pub open spec fn best_rank<P: MinMaxPolicy>(
    values: Seq<Scalar>,
    valid: Seq<bool>,
    start: int,
    end: int,
) -> int
    decreases end - start,
{
    if end <= start {
        0
    } else {
        let b = best_rank::<P>(values, valid, start, end - 1);
        if valid[end - 1] && (!has_valid(valid, start, end - 1) || P::rank(values[end - 1]) > b) {
            P::rank(values[end - 1])
        } else {
            b
        }
    }
}

/// The largest non-null value of `values[start..end]`, a NaN counting as
/// the largest: the rolling maximum of the window.
pub open spec fn rolling_max_rank(values: Seq<Scalar>, valid: Seq<bool>, start: int, end: int) -> int {
    best_rank::<MaxPropagateNan>(values, valid, start, end)
}

/// The best rank is reached at some non-null position and beats none.
proof fn lemma_best_rank<P: MinMaxPolicy>(
    values: Seq<Scalar>,
    valid: Seq<bool>,
    start: int,
    end: int,
) -> (w: int)
    requires
        has_valid(valid, start, end),
    ensures
        start <= w < end,
        valid[w],
        P::rank(values[w]) == best_rank::<P>(values, valid, start, end),
        forall|j: int|
            start <= j < end && #[trigger] valid[j] ==> P::rank(values[j]) <= best_rank::<P>(
                values,
                valid,
                start,
                end,
            ),
    decreases end - start,
{
    let last = end - 1;
    if has_valid(valid, start, last) {
        let w0 = lemma_best_rank::<P>(values, valid, start, last);
        if valid[last] && P::rank(values[last]) > best_rank::<P>(values, valid, start, last) {
            last
        } else {
            w0
        }
    } else {
        assert forall|j: int| start <= j < end && #[trigger] valid[j] implies j == last by {
            if j < last {
                assert(has_valid(valid, start, last));
            }
        }
        let j0 = choose|j: int| start <= j < end && #[trigger] valid[j];
        assert(valid[last]);
        last
    }
}

/// The first best position holds the best rank.
proof fn lemma_first_best_rank<P: MinMaxPolicy>(
    values: Seq<Scalar>,
    valid: Seq<bool>,
    start: int,
    end: int,
    x: int,
)
    requires
        is_first_best::<P>(values, valid, start, end, x),
    ensures
        P::rank(values[x]) == best_rank::<P>(values, valid, start, end),
{
    assert(valid[x]);
    let w = lemma_best_rank::<P>(values, valid, start, end);
    assert(P::rank(values[w]) <= P::rank(values[x]));
}

/// Two windows whose non-null values rank alike under two policies have the
/// same arg-best.
pub proof fn lemma_arg_best_same_ranks<P1: MinMaxPolicy, P2: MinMaxPolicy>(
    values1: Seq<Scalar>,
    values2: Seq<Scalar>,
    valid: Seq<bool>,
    start: int,
    end: int,
)
    requires
        forall|j: int|
            start <= j < end && #[trigger] valid[j] ==> P1::rank(values1[j]) == P2::rank(
                values2[j],
            ),
    ensures
        arg_best::<P1>(values1, valid, start, end) == arg_best::<P2>(values2, valid, start, end),
{
    if has_valid(valid, start, end) {
        let x = lemma_first_best_exists::<P1>(values1, valid, start, end);
        assert(valid[x]);
        assert forall|j: int| start <= j < end && #[trigger] valid[j] implies P2::rank(values2[j])
            <= P2::rank(values2[x]) by {
            assert(P1::rank(values1[j]) <= P1::rank(values1[x]));
        }
        assert forall|j: int| start <= j < x && #[trigger] valid[j] implies P2::rank(values2[j])
            < P2::rank(values2[x]) by {
            assert(P1::rank(values1[j]) < P1::rank(values1[x]));
        }
        assert(is_first_best::<P2>(values2, valid, start, end, x));
        lemma_first_best_is::<P1>(values1, valid, start, end, x);
        lemma_first_best_is::<P2>(values2, valid, start, end, x);
    }
}

/// The values stored under null positions never change the answers of a
/// rolling arg-best over a column with a validity mask.
pub proof fn law_null_slots_ignored<P: MinMaxPolicy>(
    values1: Seq<Scalar>,
    values2: Seq<Scalar>,
    valid: Seq<bool>,
    window_size: int,
    min_periods: int,
    center: bool,
)
    requires
        values1.len() == values2.len(),
        forall|j: int| 0 <= j < values1.len() && #[trigger] valid[j] ==> values1[j] == values2[j],
        window_size >= 1 || (center && window_size >= 0),
    ensures
        rolling_arg_best_nulls::<P>(values1, valid, window_size, min_periods, center)
            == rolling_arg_best_nulls::<P>(values2, valid, window_size, min_periods, center),
{
    let a = rolling_arg_best_nulls::<P>(values1, valid, window_size, min_periods, center);
    let b = rolling_arg_best_nulls::<P>(values2, valid, window_size, min_periods, center);
    assert forall|i: int| 0 <= i < values1.len() implies a[i] == b[i] by {
        let w = window_of(center, i, window_size, values1.len() as int);
        lemma_window_monotone(center, i, i, window_size, values1.len() as int);
        assert forall|j: int| w.0 <= j < w.1 && #[trigger] valid[j] implies P::rank(values1[j])
            == P::rank(values2[j]) by {
            assert(values1[j] == values2[j]);
        }
        lemma_arg_best_same_ranks::<P, P>(values1, values2, valid, w.0, w.1);
    }
    assert(a =~= b);
}

/// The column with every number negated and NaN kept.
pub open spec fn negated(values: Seq<Scalar>) -> Seq<Scalar> {
    Seq::new(
        values.len(),
        |i: int|
            match values[i] {
                Scalar::Nan => Scalar::Nan,
                Scalar::Value(v) => Scalar::Value((-v) as i128),
            },
    )
}

/// No value of the column is the smallest `i128`, so negation is exact.
pub open spec fn negation_exact(values: Seq<Scalar>) -> bool {
    forall|i: int| 0 <= i < values.len() ==> values[i] != Scalar::Value(i128::MIN)
}

/// Rolling arg-min of a column equals rolling arg-max of its negation, over
/// centred and trailing windows alike, ties going to the earliest position
/// in both.
pub proof fn law_argmin_is_argmax_of_negation(
    values: Seq<Scalar>,
    window_size: int,
    min_periods: int,
    center: bool,
)
    requires
        negation_exact(values),
        window_size >= 1 || (center && window_size >= 0),
    ensures
        rolling_arg_best_no_nulls::<MinPropagateNan>(values, window_size, min_periods, center)
            == rolling_arg_best_no_nulls::<MaxPropagateNan>(
            negated(values),
            window_size,
            min_periods,
            center,
        ),
        rolling_arg_best_trailing::<MinPropagateNan>(values, window_size, min_periods)
            == rolling_arg_best_trailing::<MaxPropagateNan>(
            negated(values),
            window_size,
            min_periods,
        ),
{
    let n = values.len();
    let neg = negated(values);
    assert(all_valid(neg.len()) == all_valid(n));
    assert forall|j: int| 0 <= j < n implies MinPropagateNan::rank(values[j])
        == MaxPropagateNan::rank(#[trigger] neg[j]) by {
        assert(values[j] != Scalar::Value(i128::MIN));
    }
    let a = rolling_arg_best_no_nulls::<MinPropagateNan>(values, window_size, min_periods, center);
    let b = rolling_arg_best_no_nulls::<MaxPropagateNan>(neg, window_size, min_periods, center);
    assert forall|i: int| 0 <= i < n implies a[i] == b[i] by {
        let w = window_of(center, i, window_size, n as int);
        lemma_window_monotone(center, i, i, window_size, n as int);
        assert forall|j: int| w.0 <= j < w.1 && #[trigger] all_valid(n)[j] implies MinPropagateNan::rank(
            values[j],
        ) == MaxPropagateNan::rank(neg[j]) by {}
        lemma_arg_best_same_ranks::<MinPropagateNan, MaxPropagateNan>(
            values,
            neg,
            all_valid(n),
            w.0,
            w.1,
        );
    }
    assert(a =~= b);
    let c = rolling_arg_best_trailing::<MinPropagateNan>(values, window_size, min_periods);
    let d = rolling_arg_best_trailing::<MaxPropagateNan>(neg, window_size, min_periods);
    assert forall|i: int| 0 <= i < n implies c[i] == d[i] by {
        let w = trailing_window(i, window_size);
        assert forall|j: int| w.0 <= j < w.1 && #[trigger] all_valid(n)[j] implies MinPropagateNan::rank(
            values[j],
        ) == MaxPropagateNan::rank(neg[j]) by {}
        lemma_arg_best_same_ranks::<MinPropagateNan, MaxPropagateNan>(
            values,
            neg,
            all_valid(n),
            w.0,
            w.1,
        );
    }
    assert(c =~= d);
}

/// Every answer of the trailing rolling arg-max points, within its window,
/// at the rolling maximum: the value there is the largest of the window (a
/// NaN counting as the largest), and every earlier value of the window is
/// smaller.
pub proof fn law_trailing_argmax_is_rolling_max(
    values: Seq<Scalar>,
    window_size: int,
    min_periods: int,
    i: int,
)
    requires
        values.len() <= IdxSize::MAX,
        1 <= window_size,
        0 <= i < values.len(),
        rolling_arg_best_trailing::<MaxPropagateNan>(values, window_size, min_periods)[i] is Some,
    ensures
        ({
            let s = trailing_window(i, window_size).0;
            let r = rolling_arg_best_trailing::<MaxPropagateNan>(
                values,
                window_size,
                min_periods,
            )[i]->0;
            &&& s + r <= i
            &&& MaxPropagateNan::rank(values[s + r]) == rolling_max_rank(
                values,
                all_valid(values.len()),
                s,
                i + 1,
            )
            &&& forall|j: int|
                s <= j < s + r ==> MaxPropagateNan::rank(#[trigger] values[j])
                    < MaxPropagateNan::rank(values[s + r])
        }),
{
    let n = values.len();
    let w = trailing_window(i, window_size);
    let valid = all_valid(n);
    lemma_answer_position::<MaxPropagateNan>(values, valid, w.0, w.1);
    let r = arg_best::<MaxPropagateNan>(values, valid, w.0, w.1)->0;
    lemma_first_best_rank::<MaxPropagateNan>(values, valid, w.0, w.1, w.0 + r);
    assert forall|j: int| w.0 <= j < w.0 + r implies MaxPropagateNan::rank(#[trigger] values[j])
        < MaxPropagateNan::rank(values[w.0 + r]) by {
        assert(valid[j]);
    }
}

/// Every answer of a rolling arg-max over a column with a validity mask
/// points at the rolling maximum of the non-null values of its window.
pub proof fn law_argmax_is_rolling_max(
    values: Seq<Scalar>,
    valid: Seq<bool>,
    window_size: int,
    min_periods: int,
    center: bool,
    i: int,
)
    requires
        values.len() <= IdxSize::MAX,
        valid.len() == values.len(),
        0 <= i < values.len(),
        window_size >= 1 || (center && window_size >= 0),
        rolling_arg_best_nulls::<MaxPropagateNan>(values, valid, window_size, min_periods, center)[i] is Some,
    ensures
        ({
            let w = window_of(center, i, window_size, values.len() as int);
            let r = rolling_arg_best_nulls::<MaxPropagateNan>(
                values,
                valid,
                window_size,
                min_periods,
                center,
            )[i]->0;
            MaxPropagateNan::rank(values[w.0 + r]) == rolling_max_rank(values, valid, w.0, w.1)
        }),
{
    let w = window_of(center, i, window_size, values.len() as int);
    law_answer_is_first_best::<MaxPropagateNan>(values, valid, window_size, min_periods, center, i);
    let r = rolling_arg_best_nulls::<MaxPropagateNan>(values, valid, window_size, min_periods, center)[i]->0;
    lemma_first_best_rank::<MaxPropagateNan>(values, valid, w.0, w.1, w.0 + r);
}

/// Position `x` of `values[start..end]` holds, among the non-null values,
/// the first largest number, or the first NaN when there is one: every
/// non-null NaN of the window makes it a NaN, no non-null number of the
/// window exceeds it, and every earlier non-null value is a smaller number.
pub open spec fn is_first_largest(
    values: Seq<Scalar>,
    valid: Seq<bool>,
    start: int,
    end: int,
    x: int,
) -> bool {
    &&& start <= x < end
    &&& valid[x]
    &&& forall|j: int|
        start <= j < end && valid[j] && #[trigger] values[j] == Scalar::Nan ==> values[x]
            == Scalar::Nan
    &&& forall|j: int|
        start <= j < end && valid[j] && values[x] is Value && #[trigger] values[j] is Value
            ==> values[j]->0 <= values[x]->0
    &&& forall|j: int|
        start <= j < x && #[trigger] valid[j] ==> values[j] != Scalar::Nan && (values[x] matches Scalar::Value(a)
            ==> values[j] matches Scalar::Value(b) && b < a)
}

/// Position `x` of `values[start..end]` holds, among the non-null values,
/// the first smallest number, or the first NaN when there is one.
pub open spec fn is_first_smallest(
    values: Seq<Scalar>,
    valid: Seq<bool>,
    start: int,
    end: int,
    x: int,
) -> bool {
    &&& start <= x < end
    &&& valid[x]
    &&& forall|j: int|
        start <= j < end && valid[j] && #[trigger] values[j] == Scalar::Nan ==> values[x]
            == Scalar::Nan
    &&& forall|j: int|
        start <= j < end && valid[j] && values[x] is Value && #[trigger] values[j] is Value
            ==> values[x]->0 <= values[j]->0
    &&& forall|j: int|
        start <= j < x && #[trigger] valid[j] ==> values[j] != Scalar::Nan && (values[x] matches Scalar::Value(a)
            ==> values[j] matches Scalar::Value(b) && a < b)
}

/// The first best position under the max policy holds the first largest
/// number (or first NaN).
proof fn lemma_max_best_is_largest(
    values: Seq<Scalar>,
    valid: Seq<bool>,
    start: int,
    end: int,
    x: int,
)
    requires
        is_first_best::<MaxPropagateNan>(values, valid, start, end, x),
    ensures
        is_first_largest(values, valid, start, end, x),
{
    assert forall|j: int|
        start <= j < end && valid[j] && #[trigger] values[j] == Scalar::Nan implies values[x]
        == Scalar::Nan by {
        assert(MaxPropagateNan::rank(values[j]) <= MaxPropagateNan::rank(values[x]));
        if let Scalar::Value(a) = values[x] {
            law_max_prefers_larger(a, a);
        }
    }
    assert forall|j: int|
        start <= j < end && valid[j] && values[x] is Value && #[trigger] values[j] is Value
            implies values[j]->0 <= values[x]->0 by {
        assert(MaxPropagateNan::rank(values[j]) <= MaxPropagateNan::rank(values[x]));
        law_max_prefers_larger(values[j]->0, values[x]->0);
    }
    assert forall|j: int| start <= j < x && #[trigger] valid[j] implies values[j] != Scalar::Nan
        && (values[x] matches Scalar::Value(a) ==> values[j] matches Scalar::Value(b) && b < a) by {
        assert(MaxPropagateNan::rank(values[j]) < MaxPropagateNan::rank(values[x]));
        match values[x] {
            Scalar::Value(a) => {
                law_max_prefers_larger(a, a);
                if let Scalar::Value(b) = values[j] {
                    law_max_prefers_larger(b, a);
                }
            },
            Scalar::Nan => {},
        }
    }
}

/// The first best position under the min policy holds the first smallest
/// number (or first NaN).
proof fn lemma_min_best_is_smallest(
    values: Seq<Scalar>,
    valid: Seq<bool>,
    start: int,
    end: int,
    x: int,
)
    requires
        is_first_best::<MinPropagateNan>(values, valid, start, end, x),
    ensures
        is_first_smallest(values, valid, start, end, x),
{
    assert forall|j: int|
        start <= j < end && valid[j] && #[trigger] values[j] == Scalar::Nan implies values[x]
        == Scalar::Nan by {
        assert(MinPropagateNan::rank(values[j]) <= MinPropagateNan::rank(values[x]));
        if let Scalar::Value(a) = values[x] {
            law_min_prefers_smaller(a, a);
        }
    }
    assert forall|j: int|
        start <= j < end && valid[j] && values[x] is Value && #[trigger] values[j] is Value
            implies values[x]->0 <= values[j]->0 by {
        assert(MinPropagateNan::rank(values[j]) <= MinPropagateNan::rank(values[x]));
        law_min_prefers_smaller(values[j]->0, values[x]->0);
    }
    assert forall|j: int| start <= j < x && #[trigger] valid[j] implies values[j] != Scalar::Nan
        && (values[x] matches Scalar::Value(a) ==> values[j] matches Scalar::Value(b) && a < b) by {
        assert(MinPropagateNan::rank(values[j]) < MinPropagateNan::rank(values[x]));
        match values[x] {
            Scalar::Value(a) => {
                law_min_prefers_smaller(a, a);
                if let Scalar::Value(b) = values[j] {
                    law_min_prefers_smaller(b, a);
                }
            },
            Scalar::Nan => {},
        }
    }
}

/// Every answer of rolling arg-max / arg-min over a column with a validity
/// mask, over centred or trailing windows, points at the first largest /
/// smallest non-null number of its window (the first NaN, if any).
pub proof fn law_nulls_answers_are_extreme_values(
    values: Seq<Scalar>,
    valid: Seq<bool>,
    window_size: int,
    min_periods: int,
    center: bool,
    i: int,
)
    requires
        values.len() <= IdxSize::MAX,
        valid.len() == values.len(),
        0 <= i < values.len(),
        window_size >= 1 || (center && window_size >= 0),
    ensures
        ({
            let w = window_of(center, i, window_size, values.len() as int);
            let mx = rolling_arg_best_nulls::<MaxPropagateNan>(
                values,
                valid,
                window_size,
                min_periods,
                center,
            )[i];
            let mn = rolling_arg_best_nulls::<MinPropagateNan>(
                values,
                valid,
                window_size,
                min_periods,
                center,
            )[i];
            &&& mx is Some ==> is_first_largest(values, valid, w.0, w.1, w.0 + mx->0)
            &&& mn is Some ==> is_first_smallest(values, valid, w.0, w.1, w.0 + mn->0)
        }),
{
    let w = window_of(center, i, window_size, values.len() as int);
    let mx = rolling_arg_best_nulls::<MaxPropagateNan>(values, valid, window_size, min_periods, center)[i];
    let mn = rolling_arg_best_nulls::<MinPropagateNan>(values, valid, window_size, min_periods, center)[i];
    if mx is Some {
        law_answer_is_first_best::<MaxPropagateNan>(values, valid, window_size, min_periods, center, i);
        lemma_max_best_is_largest(values, valid, w.0, w.1, w.0 + mx->0);
    }
    if mn is Some {
        law_answer_is_first_best::<MinPropagateNan>(values, valid, window_size, min_periods, center, i);
        lemma_min_best_is_smallest(values, valid, w.0, w.1, w.0 + mn->0);
    }
}

/// Every answer of rolling arg-max / arg-min over a column without nulls,
/// over centred or trailing windows, points at the first largest / smallest
/// number of its window (the first NaN, if any).
pub proof fn law_no_nulls_answers_are_extreme_values(
    values: Seq<Scalar>,
    window_size: int,
    min_periods: int,
    center: bool,
    i: int,
)
    requires
        values.len() <= IdxSize::MAX,
        0 <= i < values.len(),
        window_size >= 1 || (center && window_size >= 0),
    ensures
        ({
            let w = window_of(center, i, window_size, values.len() as int);
            let valid = all_valid(values.len());
            let mx = rolling_arg_best_no_nulls::<MaxPropagateNan>(
                values,
                window_size,
                min_periods,
                center,
            )[i];
            let mn = rolling_arg_best_no_nulls::<MinPropagateNan>(
                values,
                window_size,
                min_periods,
                center,
            )[i];
            &&& mx is Some ==> is_first_largest(values, valid, w.0, w.1, w.0 + mx->0)
            &&& mn is Some ==> is_first_smallest(values, valid, w.0, w.1, w.0 + mn->0)
        }),
{
    law_full_mask_matches_no_nulls::<MaxPropagateNan>(values, window_size, min_periods, center);
    law_full_mask_matches_no_nulls::<MinPropagateNan>(values, window_size, min_periods, center);
    law_nulls_answers_are_extreme_values(
        values,
        all_valid(values.len()),
        window_size,
        min_periods,
        center,
        i,
    );
}

/// Every answer of the single-pass trailing rolling arg-max / arg-min
/// points at the first largest / smallest number of its window (the first
/// NaN, if any).
pub proof fn law_trailing_answers_are_extreme_values(
    values: Seq<Scalar>,
    window_size: int,
    min_periods: int,
    i: int,
)
    requires
        values.len() <= IdxSize::MAX,
        1 <= window_size,
        0 <= i < values.len(),
    ensures
        ({
            let w = trailing_window(i, window_size);
            let valid = all_valid(values.len());
            let mx = rolling_arg_best_trailing::<MaxPropagateNan>(values, window_size, min_periods)[i];
            let mn = rolling_arg_best_trailing::<MinPropagateNan>(values, window_size, min_periods)[i];
            &&& mx is Some ==> is_first_largest(values, valid, w.0, w.1, w.0 + mx->0)
            &&& mn is Some ==> is_first_smallest(values, valid, w.0, w.1, w.0 + mn->0)
        }),
{
    let w = trailing_window(i, window_size);
    let valid = all_valid(values.len());
    let mx = rolling_arg_best_trailing::<MaxPropagateNan>(values, window_size, min_periods)[i];
    let mn = rolling_arg_best_trailing::<MinPropagateNan>(values, window_size, min_periods)[i];
    if mx is Some {
        lemma_answer_position::<MaxPropagateNan>(values, valid, w.0, w.1);
        lemma_max_best_is_largest(values, valid, w.0, w.1, w.0 + mx->0);
    }
    if mn is Some {
        lemma_answer_position::<MinPropagateNan>(values, valid, w.0, w.1);
        lemma_min_best_is_smallest(values, valid, w.0, w.1, w.0 + mn->0);
    }
}

} // verus!
