//! What `==` tells of two values.

use vstd::prelude::*;
use vstd::std_specs::cmp::PartialEqSpec;

verus! {

/// The two are the same, or `==` says so. Of a type whose `==` is not specified nothing is said.
pub open spec fn alike<T: PartialEq>(a: T, b: T) -> bool {
    a == b || !T::obeys_eq_spec() || a.eq_spec(&b)
}

/// The two differ as far as `==` goes.
pub open spec fn unlike<T: PartialEq>(a: T, b: T) -> bool {
    T::obeys_eq_spec() ==> !a.eq_spec(&b)
}

pub fn equal<T: PartialEq>(a: &T, b: &T) -> (r: bool)
    ensures
        r ==> alike(*a, *b),
        !r ==> unlike(*a, *b),
        T::obeys_eq_spec() ==> r == a.eq_spec(b),
{
    *a == *b
}

} // verus!
