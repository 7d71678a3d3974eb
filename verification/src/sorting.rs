//! Sorting of values by the standard library.

use vstd::prelude::*;

verus! {

/// Whether `s` ascends, equal neighbours allowed.
pub open spec fn ascending(s: Seq<u16>) -> bool {
    forall|i: int, j: int| 0 <= i < j < s.len() ==> s[i] <= s[j]
}

/// `<[u16]>::sort_unstable`: puts the values in ascending order; the vector
/// holds the same values as before, each as often as before.
#[verifier::external_body]
pub(crate) fn sort_values(values: &mut Vec<u16>)
    ensures
        ascending(final(values)@),
        final(values)@.to_multiset() == old(values)@.to_multiset(),
{
    values.sort_unstable()
}

} // verus!
