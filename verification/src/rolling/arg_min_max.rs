//! A sliding window that answers "where is the best value" in amortised
//! constant time, by a monotonic deque of candidate positions.

use std::collections::VecDeque;
use std::marker::PhantomData;

use vstd::prelude::*;

use super::{
    all_valid, arg_best, count_valid, first_best, has_valid, is_first_best,
    lemma_count_valid_bound, lemma_count_valid_split, lemma_first_best_is, IdxSize,
};
use crate::min_max::{MaxPropagateNan, MinMaxPolicy, MinPropagateNan, Scalar};

verus! {

/// `x` is a non-null position of `start..end` that no later non-null value of
/// the window beats.
pub open spec fn is_leader<P: MinMaxPolicy>(
    values: Seq<Scalar>,
    valid: Seq<bool>,
    start: int,
    end: int,
    x: int,
) -> bool {
    &&& start <= x < end
    &&& valid[x]
    &&& forall|y: int| x < y < end && #[trigger] valid[y] ==> P::rank(values[y]) <= P::rank(values[x])
}

/// The deque holds, in increasing order, exactly the leaders of `start..end`.
pub open spec fn deque_holds_leaders<P: MinMaxPolicy>(
    dq: Seq<usize>,
    values: Seq<Scalar>,
    valid: Seq<bool>,
    start: int,
    end: int,
) -> bool {
    &&& forall|i: int, j: int| 0 <= i < j < dq.len() ==> dq[i] < dq[j]
    &&& forall|k: int|
        0 <= k < dq.len() ==> #[trigger] is_leader::<P>(values, valid, start, end, dq[k] as int)
    &&& forall|x: int|
        #[trigger] is_leader::<P>(values, valid, start, end, x) ==> exists|k: int|
            0 <= k < dq.len() && dq[k] == x
}

/// Below any non-null position of the window there is a leader at or after
/// it whose value is at least as good.
proof fn lemma_leader_above<P: MinMaxPolicy>(
    values: Seq<Scalar>,
    valid: Seq<bool>,
    start: int,
    end: int,
    x: int,
) -> (l: int)
    requires
        start <= x < end,
        valid[x],
    ensures
        is_leader::<P>(values, valid, start, end, l),
        x <= l,
        P::rank(values[l]) >= P::rank(values[x]),
    decreases end - x,
{
    if is_leader::<P>(values, valid, start, end, x) {
        x
    } else {
        let y = choose|y: int|
            x < y < end && #[trigger] valid[y] && P::rank(values[y]) > P::rank(values[x]);
        lemma_leader_above::<P>(values, valid, start, end, y)
    }
}

/// The front of a non-empty deque of leaders is the first best position.
pub proof fn lemma_front_is_first_best<P: MinMaxPolicy>(
    dq: Seq<usize>,
    values: Seq<Scalar>,
    valid: Seq<bool>,
    start: int,
    end: int,
)
    requires
        deque_holds_leaders::<P>(dq, values, valid, start, end),
        dq.len() > 0,
    ensures
        is_first_best::<P>(values, valid, start, end, dq[0] as int),
{
    let f = dq[0] as int;
    assert(is_leader::<P>(values, valid, start, end, f));
    assert forall|j: int| start <= j < f && #[trigger] valid[j] implies P::rank(values[j])
        < P::rank(values[f]) by {
        if is_leader::<P>(values, valid, start, end, j) {
            let k = choose|k: int| 0 <= k < dq.len() && dq[k] == j;
            if k > 0 {
                assert(dq[0] < dq[k]);
            }
        }
        let y = choose|y: int|
            j < y < end && #[trigger] valid[y] && P::rank(values[y]) > P::rank(values[j]);
        let l = lemma_leader_above::<P>(values, valid, start, end, y);
        let k = choose|k: int| 0 <= k < dq.len() && dq[k] == l;
        if k > 0 {
            assert(dq[0] < dq[k]);
            assert(valid[l]);
        }
    }
    assert forall|j: int| start <= j < end && #[trigger] valid[j] implies P::rank(values[j])
        <= P::rank(values[f]) by {
        if j < f {
            assert(start <= j < f && valid[j]);
        }
    }
}

/// An empty deque of leaders means a window without non-null values.
pub proof fn lemma_empty_deque_no_valid<P: MinMaxPolicy>(
    dq: Seq<usize>,
    values: Seq<Scalar>,
    valid: Seq<bool>,
    start: int,
    end: int,
)
    requires
        deque_holds_leaders::<P>(dq, values, valid, start, end),
        dq.len() == 0,
    ensures
        !has_valid(valid, start, end),
{
    if has_valid(valid, start, end) {
        let j = choose|j: int| start <= j < end && #[trigger] valid[j];
        let l = lemma_leader_above::<P>(values, valid, start, end, j);
        assert(exists|k: int| 0 <= k < dq.len() && dq[k] == l);
    }
}

/// A null position added at the end leaves the leaders unchanged.
proof fn lemma_extend_by_null<P: MinMaxPolicy>(
    dq: Seq<usize>,
    values: Seq<Scalar>,
    valid: Seq<bool>,
    start: int,
    end: int,
)
    requires
        deque_holds_leaders::<P>(dq, values, valid, start, end),
        !valid[end],
    ensures
        deque_holds_leaders::<P>(dq, values, valid, start, end + 1),
{
    assert forall|x: int| #[trigger]
        is_leader::<P>(values, valid, start, end, x) == is_leader::<P>(
            values,
            valid,
            start,
            end + 1,
            x,
        ) by {
        if is_leader::<P>(values, valid, start, end, x) {
            assert forall|y: int| x < y < end + 1 && #[trigger] valid[y] implies P::rank(values[y])
                <= P::rank(values[x]) by {
                if y == end {
                }
            }
        }
    }
    assert forall|k: int| 0 <= k < dq.len() implies #[trigger] is_leader::<P>(
        values,
        valid,
        start,
        end + 1,
        dq[k] as int,
    ) by {
        assert(is_leader::<P>(values, valid, start, end, dq[k] as int));
    }
    assert forall|x: int| #[trigger] is_leader::<P>(values, valid, start, end + 1, x) implies exists|
        k: int,
    |
        0 <= k < dq.len() && dq[k] == x by {
        assert(is_leader::<P>(values, valid, start, end, x));
    }
}

/// Keeping the first `kept` candidates, which are at least as good as
/// `idx`, and dropping the rest, which are worse, then appending `idx`,
/// gives the leaders of the window extended by the non-null position `idx`.
pub proof fn lemma_push_candidate<P: MinMaxPolicy>(
    old_dq: Seq<usize>,
    vals: Seq<Scalar>,
    valid: Seq<bool>,
    start: int,
    idx: int,
    kept: int,
)
    requires
        deque_holds_leaders::<P>(old_dq, vals, valid, start, idx),
        0 <= start <= idx <= usize::MAX,
        valid[idx],
        0 <= kept <= old_dq.len(),
        forall|j: int|
            kept <= j < old_dq.len() ==> P::rank(vals[#[trigger] old_dq[j] as int]) < P::rank(
                vals[idx],
            ),
        kept == 0 || P::rank(vals[old_dq[kept - 1] as int]) >= P::rank(vals[idx]),
    ensures
        deque_holds_leaders::<P>(old_dq.take(kept).push(idx as usize), vals, valid, start, idx + 1),
{
    let dq = old_dq.take(kept).push(idx as usize);
    assert(dq.len() == kept + 1);
    assert forall|k: int| 0 <= k < kept implies #[trigger] dq[k] == old_dq[k] by {}
    assert(dq[kept] == idx);
    assert forall|i: int, j: int| 0 <= i < j < dq.len() implies dq[i] < dq[j] by {
        assert(is_leader::<P>(vals, valid, start, idx, old_dq[i] as int));
        if j < kept {
            assert(old_dq[i] < old_dq[j]);
        }
    }
    assert forall|k: int| 0 <= k < dq.len() implies #[trigger] is_leader::<P>(
        vals,
        valid,
        start,
        idx + 1,
        dq[k] as int,
    ) by {
        if k < kept {
            let x = old_dq[k] as int;
            assert(is_leader::<P>(vals, valid, start, idx, x));
            assert forall|y: int| x < y < idx + 1 && #[trigger] valid[y] implies P::rank(vals[y])
                <= P::rank(vals[x]) by {
                if y == idx {
                    if k < kept - 1 {
                        assert(is_leader::<P>(vals, valid, start, idx, old_dq[kept - 1] as int));
                        assert(old_dq[k] < old_dq[kept - 1]);
                        assert(valid[old_dq[kept - 1] as int]);
                    }
                }
            }
        }
    }
    assert forall|x: int| #[trigger] is_leader::<P>(vals, valid, start, idx + 1, x) implies exists|
        k: int,
    |
        0 <= k < dq.len() && dq[k] == x by {
        if x == idx {
            assert(dq[kept] == x);
        } else {
            assert(valid[idx]);
            assert(is_leader::<P>(vals, valid, start, idx, x));
            let k = choose|k: int| 0 <= k < old_dq.len() && old_dq[k] == x;
            if k >= kept {
                assert(P::rank(vals[old_dq[k] as int]) < P::rank(vals[idx]));
            }
            assert(dq[k] == x);
        }
    }
}

/// Dropping the first `r` candidates, which lie before `window_start`, when
/// the next one does not, gives the leaders of the window moved to start at
/// `window_start`.
pub proof fn lemma_drop_stale<P: MinMaxPolicy>(
    old_dq: Seq<usize>,
    vals: Seq<Scalar>,
    valid: Seq<bool>,
    start: int,
    end: int,
    window_start: int,
    r: int,
)
    requires
        deque_holds_leaders::<P>(old_dq, vals, valid, start, end),
        start <= window_start,
        0 <= r <= old_dq.len(),
        forall|j: int| 0 <= j < r ==> #[trigger] old_dq[j] < window_start,
        r == old_dq.len() || old_dq[r] >= window_start,
    ensures
        deque_holds_leaders::<P>(old_dq.skip(r), vals, valid, window_start, end),
{
    let dq = old_dq.skip(r);
    assert forall|k: int| 0 <= k < dq.len() implies #[trigger] dq[k] == old_dq[k + r] by {}
    assert forall|i: int, j: int| 0 <= i < j < dq.len() implies dq[i] < dq[j] by {
        assert(old_dq[i + r] < old_dq[j + r]);
    }
    assert forall|k: int| 0 <= k < dq.len() implies #[trigger] is_leader::<P>(
        vals,
        valid,
        window_start,
        end,
        dq[k] as int,
    ) by {
        assert(is_leader::<P>(vals, valid, start, end, old_dq[k + r] as int));
        if k > 0 {
            assert(dq[0] < dq[k]);
        }
    }
    assert forall|x: int| #[trigger] is_leader::<P>(vals, valid, window_start, end, x) implies exists|
        k: int,
    |
        0 <= k < dq.len() && dq[k] == x by {
        assert(is_leader::<P>(vals, valid, start, end, x));
        let k = choose|k: int| 0 <= k < old_dq.len() && old_dq[k] == x;
        if k < r {
            assert(old_dq[k] < window_start);
        }
        assert(dq[k - r] == x);
    }
}

/// A window over `values`, with an optional validity mask, that tracks the
/// position of the best non-null value under policy `P`.
///
/// `monotonic_idxs` holds the positions of the window that no later non-null
/// value beats, in increasing order; their values are therefore in
/// non-improving order, and the front is the first best position.
pub struct ArgMinMaxWindow<'a, P> {
    values: &'a [Scalar],
    validity: Option<&'a [bool]>,
    monotonic_idxs: VecDeque<usize>,
    nonnulls_in_window: usize,
    start: usize,
    end: usize,
    policy: PhantomData<P>,
}

/// The window that selects the smallest value.
pub type ArgMinWindow<'a> = ArgMinMaxWindow<'a, MinPropagateNan>;

/// The window that selects the largest value.
pub type ArgMaxWindow<'a> = ArgMinMaxWindow<'a, MaxPropagateNan>;

impl<'a, P: MinMaxPolicy> ArgMinMaxWindow<'a, P> {
    /// The values the window runs over.
    pub closed spec fn values_view(&self) -> Seq<Scalar> {
        self.values@
    }

    /// Which positions are non-null: the mask if there is one, else all.
    pub closed spec fn valid_view(&self) -> Seq<bool> {
        match self.validity {
            Some(v) => v@,
            None => all_valid(self.values@.len()),
        }
    }

    /// Whether the window was made with a validity mask.
    pub closed spec fn has_validity(&self) -> bool {
        self.validity is Some
    }

    /// The first position of the current window.
    pub closed spec fn window_start(&self) -> int {
        self.start as int
    }

    /// One past the last position of the current window.
    pub closed spec fn window_end(&self) -> int {
        self.end as int
    }

    /// The count of non-null values the window keeps.
    pub closed spec fn nonnull_count(&self) -> nat {
        self.nonnulls_in_window as nat
    }

    /// The window's internal invariant.
    pub closed spec fn wf(&self) -> bool {
        &&& self.start <= self.end <= self.values@.len()
        &&& self.values@.len() <= IdxSize::MAX
        &&& (self.validity matches Some(v) ==> v@.len() == self.values@.len())
        &&& deque_holds_leaders::<P>(
            self.monotonic_idxs@,
            self.values_view(),
            self.valid_view(),
            self.start as int,
            self.end as int,
        )
        &&& (self.validity is Some ==> self.nonnulls_in_window == count_valid(
            self.valid_view(),
            self.start as int,
            self.end as int,
        ))
        &&& (self.validity is None ==> self.nonnulls_in_window <= self.end)
    }

    /// Adds the non-null position `idx` at the end of the window
    /// `start..idx`, dropping the candidates that it beats.
    fn insert_nonnull_value(&mut self, idx: usize, Ghost(start): Ghost<int>)
        requires
            old(self).values@.len() <= IdxSize::MAX,
            0 <= start <= idx < old(self).values@.len(),
            old(self).valid_view()[idx as int],
            old(self).nonnulls_in_window < usize::MAX,
            deque_holds_leaders::<P>(
                old(self).monotonic_idxs@,
                old(self).values_view(),
                old(self).valid_view(),
                start,
                idx as int,
            ),
        ensures
            final(self).values == old(self).values,
            final(self).validity == old(self).validity,
            final(self).start == old(self).start,
            final(self).end == old(self).end,
            final(self).nonnulls_in_window == old(self).nonnulls_in_window + 1,
            deque_holds_leaders::<P>(
                final(self).monotonic_idxs@,
                final(self).values_view(),
                final(self).valid_view(),
                start,
                idx + 1,
            ),
    {
        let ghost old_dq = self.monotonic_idxs@;
        let ghost vals = self.values_view();
        let ghost valid = self.valid_view();
        let value = &self.values[idx];
        // Remove values which are older and worse.
        while self.monotonic_idxs.len() > 0
            invariant
                self.values == old(self).values,
                self.validity == old(self).validity,
                self.start == old(self).start,
                self.end == old(self).end,
                self.nonnulls_in_window == old(self).nonnulls_in_window,
                vals == self.values_view(),
                valid == self.valid_view(),
                idx < vals.len(),
                *value == vals[idx as int],
                self.monotonic_idxs@.len() <= old_dq.len(),
                self.monotonic_idxs@ == old_dq.take(self.monotonic_idxs@.len() as int),
                deque_holds_leaders::<P>(old_dq, vals, valid, start, idx as int),
                forall|j: int|
                    self.monotonic_idxs@.len() <= j < old_dq.len() ==> P::rank(
                        vals[#[trigger] old_dq[j] as int],
                    ) < P::rank(vals[idx as int]),
            ensures
                self.values == old(self).values,
                self.validity == old(self).validity,
                self.start == old(self).start,
                self.end == old(self).end,
                self.nonnulls_in_window == old(self).nonnulls_in_window,
                self.monotonic_idxs@.len() <= old_dq.len(),
                self.monotonic_idxs@ == old_dq.take(self.monotonic_idxs@.len() as int),
                forall|j: int|
                    self.monotonic_idxs@.len() <= j < old_dq.len() ==> P::rank(
                        vals[#[trigger] old_dq[j] as int],
                    ) < P::rank(vals[idx as int]),
                self.monotonic_idxs@.len() == 0 || P::rank(
                    vals[old_dq[self.monotonic_idxs@.len() - 1] as int],
                ) >= P::rank(vals[idx as int]),
            decreases self.monotonic_idxs@.len(),
        {
            let last = self.monotonic_idxs.len() - 1;
            let tail_idx = self.monotonic_idxs[last];
            proof {
                assert(old_dq[last as int] == tail_idx);
                assert(is_leader::<P>(vals, valid, start, idx as int, old_dq[last as int] as int));
            }
            let tail_value = &self.values[tail_idx];
            if !P::is_better(value, tail_value) {
                break;
            }
            self.monotonic_idxs.pop_back();
        }
        let ghost kept = self.monotonic_idxs@.len() as int;
        self.monotonic_idxs.push_back(idx);
        self.nonnulls_in_window = self.nonnulls_in_window + 1;
        proof {
            lemma_push_candidate::<P>(old_dq, vals, valid, start, idx as int, kept);
            assert(self.monotonic_idxs@ =~= old_dq.take(kept).push(idx));
        }
    }

    /// Drops the candidates that lie before `window_start`.
    fn remove_old_values(
        &mut self,
        window_start: usize,
        Ghost(start): Ghost<int>,
        Ghost(end): Ghost<int>,
    )
        requires
            start <= window_start,
            deque_holds_leaders::<P>(
                old(self).monotonic_idxs@,
                old(self).values_view(),
                old(self).valid_view(),
                start,
                end,
            ),
        ensures
            final(self).values == old(self).values,
            final(self).validity == old(self).validity,
            final(self).start == old(self).start,
            final(self).end == old(self).end,
            final(self).nonnulls_in_window == old(self).nonnulls_in_window,
            deque_holds_leaders::<P>(
                final(self).monotonic_idxs@,
                final(self).values_view(),
                final(self).valid_view(),
                window_start as int,
                end,
            ),
    {
        let ghost old_dq = self.monotonic_idxs@;
        let ghost vals = self.values_view();
        let ghost valid = self.valid_view();
        // Remove values which have fallen outside the window start.
        while self.monotonic_idxs.len() > 0 && self.monotonic_idxs[0] < window_start
            invariant
                self.values == old(self).values,
                self.validity == old(self).validity,
                self.start == old(self).start,
                self.end == old(self).end,
                self.nonnulls_in_window == old(self).nonnulls_in_window,
                vals == self.values_view(),
                valid == self.valid_view(),
                self.monotonic_idxs@.len() <= old_dq.len(),
                self.monotonic_idxs@ == old_dq.skip(
                    old_dq.len() - self.monotonic_idxs@.len(),
                ),
                forall|j: int|
                    0 <= j < old_dq.len() - self.monotonic_idxs@.len() ==> #[trigger] old_dq[j]
                        < window_start,
            decreases self.monotonic_idxs@.len(),
        {
            self.monotonic_idxs.pop_front();
        }
        proof {
            let r = old_dq.len() - self.monotonic_idxs@.len();
            lemma_drop_stale::<P>(old_dq, vals, valid, start, end, window_start as int, r);
        }
    }

    /// Makes a window over `slice[start..end]`, with the validity mask if one
    /// is given.
    pub fn new(
        slice: &'a [Scalar],
        validity: Option<&'a [bool]>,
        start: usize,
        end: usize,
    ) -> (r: Self)
        requires
            start <= end <= slice@.len(),
            slice@.len() <= IdxSize::MAX,
            validity matches Some(v) ==> v@.len() == slice@.len(),
        ensures
            r.wf(),
            r.values_view() == slice@,
            r.has_validity() == (validity is Some),
            validity matches Some(v) ==> r.valid_view() == v@,
            validity is None ==> r.valid_view() == all_valid(slice@.len()),
            r.window_start() == start,
            r.window_end() == end,
    {
        let mut this = ArgMinMaxWindow {
            values: slice,
            validity,
            monotonic_idxs: VecDeque::new(),
            nonnulls_in_window: 0,
            start: 0,
            end: 0,
            policy: PhantomData,
        };
        this.update(start, end);
        this
    }

    /// Moves the window to `new_start..new_end`; both ends only move forward.
    pub fn update(&mut self, new_start: usize, new_end: usize)
        requires
            old(self).wf(),
            old(self).window_start() <= new_start <= new_end,
            old(self).window_end() <= new_end,
            new_end <= old(self).values_view().len(),
        ensures
            final(self).wf(),
            final(self).values_view() == old(self).values_view(),
            final(self).valid_view() == old(self).valid_view(),
            final(self).has_validity() == old(self).has_validity(),
            final(self).window_start() == new_start,
            final(self).window_end() == new_end,
    {
        let ghost vals = self.values_view();
        let ghost valid = self.valid_view();
        let ghost old_start = self.start as int;
        let ghost old_end = self.end as int;
        self.remove_old_values(new_start, Ghost(old_start), Ghost(old_end));
        let first_new = if new_start > self.end { new_start } else { self.end };
        proof {
            if new_start > old_end && self.monotonic_idxs@.len() > 0 {
                assert(is_leader::<P>(
                    vals,
                    valid,
                    new_start as int,
                    old_end,
                    self.monotonic_idxs@[0] as int,
                ));
            }
            assert forall|x: int| #[trigger] is_leader::<P>(
                vals,
                valid,
                new_start as int,
                first_new as int,
                x,
            ) implies exists|k: int|
                0 <= k < self.monotonic_idxs@.len() && self.monotonic_idxs@[k] == x by {
                assert(is_leader::<P>(vals, valid, new_start as int, old_end, x));
            }
            assert forall|k: int| 0 <= k < self.monotonic_idxs@.len() implies #[trigger] is_leader::<
                P,
            >(vals, valid, new_start as int, first_new as int, self.monotonic_idxs@[k] as int) by {
                assert(is_leader::<P>(
                    vals,
                    valid,
                    new_start as int,
                    old_end,
                    self.monotonic_idxs@[k] as int,
                ));
            }
        }
        match self.validity {
            Some(v) => {
                let stop = if new_start < self.end { new_start } else { self.end };
                let mut i = self.start;
                while i < stop
                    invariant
                        self.values == old(self).values,
                        self.validity == old(self).validity,
                        self.validity == Some(v),
                        self.start == old(self).start,
                        self.end == old(self).end,
                        vals == self.values_view(),
                        valid == self.valid_view(),
                        valid == v@,
                        v@.len() == vals.len(),
                        old_start <= i <= stop <= old_end <= vals.len(),
                        stop == (if new_start < old_end { new_start as int } else { old_end }),
                        deque_holds_leaders::<P>(
                            self.monotonic_idxs@,
                            vals,
                            valid,
                            new_start as int,
                            first_new as int,
                        ),
                        self.nonnulls_in_window == count_valid(valid, old_start, old_end)
                            - count_valid(valid, old_start, i as int),
                    decreases stop - i,
                {
                    proof {
                        lemma_count_valid_split(valid, old_start, i as int, old_end);
                        lemma_count_valid_split(valid, i as int, i + 1, old_end);
                    }
                    if v[i] {
                        self.nonnulls_in_window = self.nonnulls_in_window - 1;
                    }
                    i = i + 1;
                }
                proof {
                    lemma_count_valid_split(valid, old_start, stop as int, old_end);
                }
                let mut i = first_new;
                while i < new_end
                    invariant
                        self.values == old(self).values,
                        self.validity == old(self).validity,
                        self.validity == Some(v),
                        self.start == old(self).start,
                        self.end == old(self).end,
                        vals == self.values_view(),
                        valid == self.valid_view(),
                        valid == v@,
                        v@.len() == vals.len(),
                        vals.len() <= IdxSize::MAX,
                        new_start <= first_new <= i <= new_end <= vals.len(),
                        deque_holds_leaders::<P>(
                            self.monotonic_idxs@,
                            vals,
                            valid,
                            new_start as int,
                            i as int,
                        ),
                        self.nonnulls_in_window == count_valid(valid, new_start as int, i as int),
                    decreases new_end - i,
                {
                    proof {
                        lemma_count_valid_bound(valid, new_start as int, i as int);
                    }
                    if v[i] {
                        self.insert_nonnull_value(i, Ghost(new_start as int));
                    } else {
                        proof {
                            lemma_extend_by_null::<P>(
                                self.monotonic_idxs@,
                                vals,
                                valid,
                                new_start as int,
                                i as int,
                            );
                        }
                    }
                    i = i + 1;
                }
            },
            None => {
                let mut i = first_new;
                while i < new_end
                    invariant
                        self.values == old(self).values,
                        self.validity == old(self).validity,
                        self.validity is None,
                        self.start == old(self).start,
                        self.end == old(self).end,
                        vals == self.values_view(),
                        valid == self.valid_view(),
                        valid == all_valid(vals.len()),
                        vals.len() <= IdxSize::MAX,
                        new_start <= first_new <= i <= new_end <= vals.len(),
                        deque_holds_leaders::<P>(
                            self.monotonic_idxs@,
                            vals,
                            valid,
                            new_start as int,
                            i as int,
                        ),
                        self.nonnulls_in_window <= i,
                    decreases new_end - i,
                {
                    self.insert_nonnull_value(i, Ghost(new_start as int));
                    i = i + 1;
                }
            },
        }
        self.start = new_start;
        self.end = new_end;
    }

    /// The position of the best non-null value of the window, relative to its
    /// start; `None` when the window holds no non-null value.
    pub fn get_agg(&self, _idx: usize) -> (r: Option<IdxSize>)
        requires
            self.wf(),
        ensures
            r == arg_best::<P>(
                self.values_view(),
                self.valid_view(),
                self.window_start(),
                self.window_end(),
            ),
    {
        if self.monotonic_idxs.len() > 0 {
            let best_abs = self.monotonic_idxs[0];
            proof {
                lemma_front_is_first_best::<P>(
                    self.monotonic_idxs@,
                    self.values_view(),
                    self.valid_view(),
                    self.start as int,
                    self.end as int,
                );
                lemma_first_best_is::<P>(
                    self.values_view(),
                    self.valid_view(),
                    self.start as int,
                    self.end as int,
                    best_abs as int,
                );
            }
            Some((best_abs - self.start) as IdxSize)
        } else {
            proof {
                lemma_empty_deque_no_valid::<P>(
                    self.monotonic_idxs@,
                    self.values_view(),
                    self.valid_view(),
                    self.start as int,
                    self.end as int,
                );
            }
            None
        }
    }

    /// Whether the window holds at least `min_periods` non-null values.
    pub fn is_valid(&self, min_periods: usize) -> (r: bool)
        requires
            self.wf(),
        ensures
            r == (self.nonnull_count() >= min_periods),
            self.has_validity() ==> r == (count_valid(
                self.valid_view(),
                self.window_start(),
                self.window_end(),
            ) >= min_periods),
    {
        self.nonnulls_in_window >= min_periods
    }

    /// The length of the whole slice the window runs over.
    pub fn slice_len(&self) -> (r: usize)
        requires
            self.wf(),
        ensures
            r == self.values_view().len(),
    {
        self.values.len()
    }
}

} // verus!
