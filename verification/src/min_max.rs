use vstd::prelude::*;

verus! {

/// A value of a numeric column, as far as the order-based kernels read it:
/// either a number (integers, or floats by an order-preserving integer key)
/// or a NaN.
#[derive(Clone, Copy, Debug, PartialEq, Eq)]
pub enum Scalar {
    Nan,
    Value(i128),
}

/// The rank that every NaN gets: above the rank of any number.
pub open spec fn nan_rank() -> int {
    0x1_0000_0000_0000_0000_0000_0000_0000_0000int
}

/// A selection policy: which of two values is strictly better.
///
/// Both policies propagate NaN: a NaN is better than any number, and two
/// NaNs, or two equal numbers, are not better than each other.
pub trait MinMaxPolicy {
    /// The rank of a value: `a` is better than `b` exactly when its rank is higher.
    spec fn rank(x: Scalar) -> int;

    /// Is `a` strictly better than `b`?
    fn is_better(a: &Scalar, b: &Scalar) -> (r: bool)
        ensures
            r == (Self::rank(*a) > Self::rank(*b)),
    ;

    /// A NaN ranks above every number.
    proof fn lemma_nan_ranks_highest(v: i128)
        ensures
            Self::rank(Scalar::Nan) > Self::rank(Scalar::Value(v)),
    ;
}

/// Prefer the smaller value; NaN wins over every number.
pub struct MinPropagateNan;

/// Prefer the larger value; NaN wins over every number.
pub struct MaxPropagateNan;

impl MinMaxPolicy for MinPropagateNan {
    open spec fn rank(x: Scalar) -> int {
        match x {
            Scalar::Nan => nan_rank(),
            Scalar::Value(v) => -v,
        }
    }

    proof fn lemma_nan_ranks_highest(v: i128) {
    }

    fn is_better(a: &Scalar, b: &Scalar) -> (r: bool) {
        match (a, b) {
            (Scalar::Nan, Scalar::Nan) => false,
            (Scalar::Nan, Scalar::Value(_)) => true,
            (Scalar::Value(_), Scalar::Nan) => false,
            (Scalar::Value(x), Scalar::Value(y)) => *x < *y,
        }
    }
}

impl MinMaxPolicy for MaxPropagateNan {
    open spec fn rank(x: Scalar) -> int {
        match x {
            Scalar::Nan => nan_rank(),
            Scalar::Value(v) => v as int,
        }
    }

    proof fn lemma_nan_ranks_highest(v: i128) {
    }

    fn is_better(a: &Scalar, b: &Scalar) -> (r: bool) {
        match (a, b) {
            (Scalar::Nan, Scalar::Nan) => false,
            (Scalar::Nan, Scalar::Value(_)) => true,
            (Scalar::Value(_), Scalar::Nan) => false,
            (Scalar::Value(x), Scalar::Value(y)) => *x > *y,
        }
    }
}

/// The max policy prefers exactly the larger of two numbers, and a NaN to
/// every number.
pub proof fn law_max_prefers_larger(a: i128, b: i128)
    ensures
        MaxPropagateNan::rank(Scalar::Value(a)) > MaxPropagateNan::rank(Scalar::Value(b)) <==> a
            > b,
        MaxPropagateNan::rank(Scalar::Value(a)) == MaxPropagateNan::rank(Scalar::Value(b)) <==> a
            == b,
        MaxPropagateNan::rank(Scalar::Nan) > MaxPropagateNan::rank(Scalar::Value(a)),
{
    MaxPropagateNan::lemma_nan_ranks_highest(a);
}

/// The min policy prefers exactly the smaller of two numbers, and a NaN to
/// every number.
pub proof fn law_min_prefers_smaller(a: i128, b: i128)
    ensures
        MinPropagateNan::rank(Scalar::Value(a)) > MinPropagateNan::rank(Scalar::Value(b)) <==> a
            < b,
        MinPropagateNan::rank(Scalar::Value(a)) == MinPropagateNan::rank(Scalar::Value(b)) <==> a
            == b,
        MinPropagateNan::rank(Scalar::Nan) > MinPropagateNan::rank(Scalar::Value(a)),
{
    MinPropagateNan::lemma_nan_ranks_highest(a);
}

} // verus!
