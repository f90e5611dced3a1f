//! Keeping the smaller or the larger of two values.

use vstd::prelude::*;
use vstd::std_specs::cmp::{PartialOrdIs, PartialOrdSpec};

verus! {

/// Lowering a value to a smaller one, and raising it to a larger one.
pub trait SetMinMax: PartialOrd + Sized {
    /// Takes `v` where it is smaller than the value held, and says whether it
    /// was taken.
    fn setmin(&mut self, v: Self) -> (r: bool)
        ensures
            Self::obeys_partial_cmp_spec() ==> r == (*old(self)).is_gt(&v),
            r ==> *final(self) == v,
            !r ==> *final(self) == *old(self),
    ;

    /// Takes `v` where it is larger than the value held, and says whether it
    /// was taken.
    fn setmax(&mut self, v: Self) -> (r: bool)
        ensures
            Self::obeys_partial_cmp_spec() ==> r == (*old(self)).is_lt(&v),
            r ==> *final(self) == v,
            !r ==> *final(self) == *old(self),
    ;
}

impl<T: PartialOrd> SetMinMax for T {
    fn setmin(&mut self, v: T) -> (r: bool) {
        if *self > v {
            *self = v;
            true
        } else {
            false
        }
    }

    fn setmax(&mut self, v: T) -> (r: bool) {
        if *self < v {
            *self = v;
            true
        } else {
            false
        }
    }
}

} // verus!
