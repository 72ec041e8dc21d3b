//! Sorting through an outside iterator adaptor.

use itertools::Itertools;
use vstd::prelude::*;

verus! {

/// The elements never decrease from left to right.
pub open spec fn is_ascending(s: Seq<u64>) -> bool {
    forall|i: int, j: int| 0 <= i < j < s.len() ==> s[i] <= s[j]
}

/// Relies on itertools' `sorted`: returns the same elements rearranged into
/// ascending order.
#[verifier::external_body]
pub(crate) fn sorted_u64s(v: Vec<u64>) -> (r: Vec<u64>)
    ensures
        is_ascending(r@),
        r@.to_multiset() == v@.to_multiset(),
{
    v.into_iter().sorted().collect()
}

} // verus!
