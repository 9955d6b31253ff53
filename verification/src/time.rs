//! Logical time: a totally ordered `u64` lattice.

use differential_dataflow::lattice::Lattice;
use timely::order::PartialOrder;
use vstd::prelude::*;

verus! {

/// A logical timestamp.
pub type Time = u64;

/// The larger of two times.
pub open spec fn join(a: Time, b: Time) -> Time {
    if a <= b { b } else { a }
}

/// The smallest of `join(time, f)` over the first `n` elements of `frontier`.
pub open spec fn advanced_prefix(time: Time, frontier: Seq<Time>, n: nat) -> Time
    recommends 0 < n <= frontier.len(),
    decreases n,
{
    if n <= 1 {
        join(time, frontier[0])
    } else {
        let rest = advanced_prefix(time, frontier, (n - 1) as nat);
        let next = join(time, frontier[n - 1]);
        if next < rest { next } else { rest }
    }
}

/// `time` advanced by `frontier`: unchanged under an empty frontier, otherwise the
/// smallest join of `time` with an element of the frontier.
pub open spec fn advanced(time: Time, frontier: Seq<Time>) -> Time {
    if frontier.len() == 0 {
        time
    } else {
        advanced_prefix(time, frontier, frontier.len())
    }
}

/// Calls `PartialOrder::less_equal` of timely on two `u64`. Trusted: times are ordered
/// as the numbers they are.
#[verifier::external_body]
pub(crate) fn less_equal(a: Time, b: Time) -> (ordered: bool)
    ensures
        ordered == (a <= b),
{
    a.less_equal(&b)
}

/// Calls `Lattice::advance_by` of differential-dataflow on a `u64`. Trusted: the result
/// is the meet, over the frontier's elements, of their joins with `time`, and `time`
/// itself when the frontier is empty.
#[verifier::external_body]
pub(crate) fn lattice_advance_by(time: Time, frontier: &Vec<Time>) -> (result: Time)
    ensures
        result == advanced(time, frontier@),
{
    let mut forwarded = time;
    forwarded.advance_by(&frontier[..]);
    forwarded
}

} // verus!
