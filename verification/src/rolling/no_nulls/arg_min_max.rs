//! Rolling arg-min / arg-max over columns without nulls.

use vstd::prelude::*;

use super::super::arg_min_max::{
    deque_holds_leaders, is_leader, lemma_drop_stale, lemma_front_is_first_best,
    lemma_push_candidate,
};
use super::super::{
    all_valid, arg_best, det_offsets, lemma_first_best_is, rolling_arg_best_no_nulls,
    rolling_arg_best_trailing, trailing_window, IdxSize,
};
use super::rolling_apply_agg_window;
use crate::min_max::{MaxPropagateNan, MinMaxPolicy, MinPropagateNan, Scalar};

verus! {

/// The deque that `rolling_argminmax` keeps in `deque_buf[head..tail]`.
pub open spec fn flat_deque(deque_buf: Seq<usize>, head: int, tail: int) -> Seq<usize> {
    deque_buf.subrange(head, tail)
}

/// Appends position `i` to the flat deque `deque_buf[head..tail]` of the
/// window `window_start..i`, after dropping from its back the candidates
/// that `values[i]` beats; returns the new `tail`.
fn flat_deque_push<P: MinMaxPolicy>(
    deque_buf: &mut Vec<usize>,
    head: usize,
    tail: usize,
    values: &[Scalar],
    i: usize,
    Ghost(window_start): Ghost<int>,
) -> (new_tail: usize)
    requires
        head <= tail <= i < old(deque_buf)@.len(),
        i < values@.len(),
        i < usize::MAX,
        0 <= window_start <= i,
        deque_holds_leaders::<P>(
            flat_deque(old(deque_buf)@, head as int, tail as int),
            values@,
            all_valid(values@.len()),
            window_start,
            i as int,
        ),
    ensures
        final(deque_buf)@.len() == old(deque_buf)@.len(),
        head < new_tail <= tail + 1,
        deque_holds_leaders::<P>(
            flat_deque(final(deque_buf)@, head as int, new_tail as int),
            values@,
            all_valid(values@.len()),
            window_start,
            i + 1,
        ),
{
    let ghost valid = all_valid(values@.len());
    let ghost old_dq = flat_deque(deque_buf@, head as int, tail as int);
    let mut tail = tail;
    while head != tail
        invariant
            deque_buf@ == old(deque_buf)@,
            head <= tail <= i < deque_buf@.len(),
            i < values@.len(),
            tail - head <= old_dq.len(),
            deque_holds_leaders::<P>(old_dq, values@, valid, window_start, i as int),
            flat_deque(deque_buf@, head as int, tail as int) == old_dq.take(tail - head),
            forall|j: int|
                tail - head <= j < old_dq.len() ==> P::rank(
                    values@[#[trigger] old_dq[j] as int],
                ) < P::rank(values@[i as int]),
        ensures
            deque_buf@ == old(deque_buf)@,
            head <= tail <= i,
            tail - head <= old_dq.len(),
            flat_deque(deque_buf@, head as int, tail as int) == old_dq.take(tail - head),
            forall|j: int|
                tail - head <= j < old_dq.len() ==> P::rank(
                    values@[#[trigger] old_dq[j] as int],
                ) < P::rank(values@[i as int]),
            tail == head || P::rank(values@[old_dq[tail - head - 1] as int]) >= P::rank(
                values@[i as int],
            ),
        decreases tail - head,
    {
        let back_idx = deque_buf[tail - 1];
        proof {
            assert(flat_deque(deque_buf@, head as int, tail as int)[tail - head - 1] == back_idx);
            assert(old_dq.take(tail - head)[tail - head - 1] == old_dq[tail - head - 1]);
            assert(old_dq[tail - head - 1] == back_idx);
            assert(is_leader::<P>(
                values@,
                valid,
                window_start,
                i as int,
                old_dq[tail - head - 1] as int,
            ));
        }
        let back_val = &values[back_idx];
        let cur_val = &values[i];
        if P::is_better(cur_val, back_val) {
            tail = tail - 1;
        } else {
            break;
        }
    }
    let ghost kept = tail - head;
    proof {
        lemma_push_candidate::<P>(old_dq, values@, valid, window_start, i as int, kept);
    }
    deque_buf.set(tail, i);
    proof {
        assert(flat_deque(deque_buf@, head as int, tail + 1) =~= old_dq.take(kept).push(i));
    }
    tail + 1
}

/// Rolling arg-best of `values` under policy `P`, with positions relative to
/// each window's start.
///
/// Centred windows go through the generic window kernel. Trailing windows
/// take a flat deque in a single pass: the first `min_periods - 1` rows are
/// `None` and every later row holds the arg-best of its window.
fn rolling_argminmax<P: MinMaxPolicy>(
    values: &[Scalar],
    window_size: usize,
    min_periods: usize,
    center: bool,
) -> (out: Vec<Option<IdxSize>>)
    requires
        values@.len() <= IdxSize::MAX,
        values@.len() == 0 || window_size >= 1 || center,
    ensures
        center ==> out@ == rolling_arg_best_no_nulls::<P>(
            values@,
            window_size as int,
            min_periods as int,
            true,
        ),
        !center ==> out@ == rolling_arg_best_trailing::<P>(
            values@,
            window_size as int,
            min_periods as int,
        ),
{
    let n = values.len();
    if n == 0 {
        let out: Vec<Option<IdxSize>> = Vec::new();
        proof {
            assert(out@ =~= rolling_arg_best_no_nulls::<P>(
                values@,
                window_size as int,
                min_periods as int,
                true,
            ));
            assert(out@ =~= rolling_arg_best_trailing::<P>(
                values@,
                window_size as int,
                min_periods as int,
            ));
        }
        return out;
    }
    if center {
        return rolling_apply_agg_window::<P>(values, window_size, min_periods, true);
    }
    let ghost valid = all_valid(values@.len());
    let ghost spec_out = rolling_arg_best_trailing::<P>(
        values@,
        window_size as int,
        min_periods as int,
    );

    // A flat deque of candidate positions in deque_buf[head..tail].
    let mut deque_buf: Vec<usize> = vec![0; n];
    let mut head: usize = 0;
    let mut tail: usize = 0;
    let mut out_values: Vec<IdxSize> = vec![0; n];

    // Warm-up: these rows will be null.
    let warmup_all = min_periods.saturating_sub(1);
    let warmup = if warmup_all < n { warmup_all } else { n };
    proof {
        assert(flat_deque(deque_buf@, 0, 0) =~= Seq::<usize>::empty());
    }
    let mut i: usize = 0;
    while i < warmup
        invariant
            n == values@.len(),
            n <= IdxSize::MAX,
            warmup <= n,
            i <= warmup,
            deque_buf@.len() == n,
            out_values@.len() == n,
            head == 0,
            tail <= i,
            valid == all_valid(values@.len()),
            deque_holds_leaders::<P>(
                flat_deque(deque_buf@, head as int, tail as int),
                values@,
                valid,
                0,
                i as int,
            ),
        decreases warmup - i,
    {
        tail = flat_deque_push::<P>(&mut deque_buf, head, tail, values, i, Ghost(0));
        i = i + 1;
    }

    // Steady state.
    let ghost mut cur_start: int = 0;
    let mut i: usize = warmup;
    while i < n
        invariant
            n == values@.len(),
            n <= IdxSize::MAX,
            window_size >= 1,
            warmup <= i <= n,
            deque_buf@.len() == n,
            out_values@.len() == n,
            head <= tail <= i,
            valid == all_valid(values@.len()),
            0 <= cur_start,
            i < n ==> cur_start <= trailing_window(i as int, window_size as int).0,
            deque_holds_leaders::<P>(
                flat_deque(deque_buf@, head as int, tail as int),
                values@,
                valid,
                cur_start,
                i as int,
            ),
            spec_out == rolling_arg_best_trailing::<P>(
                values@,
                window_size as int,
                min_periods as int,
            ),
            forall|j: int|
                warmup <= j < i ==> Some(#[trigger] out_values@[j]) == arg_best::<P>(
                    values@,
                    valid,
                    trailing_window(j, window_size as int).0,
                    trailing_window(j, window_size as int).1,
                ),
        decreases n - i,
    {
        let (window_start, _) = det_offsets(i, window_size, n);
        let ghost h0 = head;
        let ghost old_dq = flat_deque(deque_buf@, head as int, tail as int);
        while head != tail && deque_buf[head] < window_start
            invariant
                h0 <= head <= tail < deque_buf@.len(),
                old_dq == flat_deque(deque_buf@, h0 as int, tail as int),
                flat_deque(deque_buf@, head as int, tail as int) == old_dq.skip(head - h0),
                forall|j: int| 0 <= j < head - h0 ==> #[trigger] old_dq[j] < window_start,
            decreases tail - head,
        {
            proof {
                assert(old_dq[head - h0] == deque_buf@[head as int]);
            }
            head = head + 1;
            proof {
                assert(flat_deque(deque_buf@, head as int, tail as int) =~= old_dq.skip(
                    head - h0,
                ));
            }
        }
        proof {
            if head != tail {
                assert(old_dq[head - h0] == deque_buf@[head as int]);
            }
            lemma_drop_stale::<P>(
                old_dq,
                values@,
                valid,
                cur_start,
                i as int,
                window_start as int,
                head - h0,
            );
        }
        tail = flat_deque_push::<P>(
            &mut deque_buf,
            head,
            tail,
            values,
            i,
            Ghost(window_start as int),
        );
        let best = deque_buf[head];
        proof {
            let dq = flat_deque(deque_buf@, head as int, tail as int);
            assert(dq[0] == best);
            lemma_front_is_first_best::<P>(dq, values@, valid, window_start as int, i + 1);
            lemma_first_best_is::<P>(values@, valid, window_start as int, i + 1, best as int);
        }
        out_values.set(i, (best - window_start) as IdxSize);
        proof {
            cur_start = window_start as int;
        }
        i = i + 1;
    }

    // Rows before the end of the warm-up are null, the rest valid.
    let mut out: Vec<Option<IdxSize>> = Vec::with_capacity(n);
    let mut i: usize = 0;
    while i < n
        invariant
            n == values@.len(),
            warmup <= n,
            warmup == (if min_periods >= 1 {
                if min_periods - 1 < n { min_periods - 1 } else { n as int }
            } else {
                0
            }),
            i <= n,
            out_values@.len() == n,
            out@.len() == i,
            valid == all_valid(values@.len()),
            spec_out == rolling_arg_best_trailing::<P>(
                values@,
                window_size as int,
                min_periods as int,
            ),
            forall|j: int|
                warmup <= j < n ==> Some(#[trigger] out_values@[j]) == arg_best::<P>(
                    values@,
                    valid,
                    trailing_window(j, window_size as int).0,
                    trailing_window(j, window_size as int).1,
                ),
            forall|j: int| 0 <= j < i ==> out@[j] == spec_out[j],
        decreases n - i,
    {
        if i < warmup {
            out.push(None);
        } else {
            out.push(Some(out_values[i]));
        }
        i = i + 1;
    }
    proof {
        assert(out@ =~= spec_out);
    }
    out
}

/// Rolling arg-min of a column without nulls: for each row, the position of
/// the first smallest value of its window (NaN counting as the smallest),
/// relative to the window's start.
pub fn rolling_argmin(
    values: &[Scalar],
    window_size: usize,
    min_periods: usize,
    center: bool,
) -> (out: Vec<Option<IdxSize>>)
    requires
        values@.len() <= IdxSize::MAX,
        values@.len() == 0 || window_size >= 1 || center,
    ensures
        center ==> out@ == rolling_arg_best_no_nulls::<MinPropagateNan>(
            values@,
            window_size as int,
            min_periods as int,
            true,
        ),
        !center ==> out@ == rolling_arg_best_trailing::<MinPropagateNan>(
            values@,
            window_size as int,
            min_periods as int,
        ),
{
    rolling_argminmax::<MinPropagateNan>(values, window_size, min_periods, center)
}

/// Rolling arg-max of a column without nulls: for each row, the position of
/// the first largest value of its window (NaN counting as the largest),
/// relative to the window's start.
pub fn rolling_argmax(
    values: &[Scalar],
    window_size: usize,
    min_periods: usize,
    center: bool,
) -> (out: Vec<Option<IdxSize>>)
    requires
        values@.len() <= IdxSize::MAX,
        values@.len() == 0 || window_size >= 1 || center,
    ensures
        center ==> out@ == rolling_arg_best_no_nulls::<MaxPropagateNan>(
            values@,
            window_size as int,
            min_periods as int,
            true,
        ),
        !center ==> out@ == rolling_arg_best_trailing::<MaxPropagateNan>(
            values@,
            window_size as int,
            min_periods as int,
        ),
{
    rolling_argminmax::<MaxPropagateNan>(values, window_size, min_periods, center)
}

} // verus!
