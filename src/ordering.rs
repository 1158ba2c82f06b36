use vstd::prelude::*;
use vstd::std_specs::cmp::{PartialOrdIs, PartialOrdSpec};

verus! {

/// The larger of two values; `first` when they compare equal.
pub fn max<'a, T: Ord>(first: &'a T, second: &'a T) -> (r: &'a T)
    ensures
        r == first || r == second,
        T::obeys_partial_cmp_spec() ==> r == (if first.is_ge(second) {
            first
        } else {
            second
        }),
{
    if first >= second {
        first
    } else {
        second
    }
}

} // verus!
