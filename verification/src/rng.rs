//! Randomness for the weighted sampler, from the `rand` crate.
//!
//! Nothing can be promised of a random draw, so the specification below has
//! no `ensures`: the sampler is verified for every value the generator may
//! return. One caveat outside any contract's reach: the first use of the
//! thread-local generator panics if the operating system's entropy source
//! is unavailable.

use vstd::prelude::*;

verus! {

pub assume_specification<T>[ rand::random::<T> ]() -> (r: T)
    where
        rand::distributions::Standard: rand::distributions::Distribution<T>,
;

} // verus!
