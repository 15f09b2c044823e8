//! The one source of randomness the library draws from.

use vstd::prelude::*;

verus! {

/// Relies on rand::random: a value drawn from the thread-local
/// generator.  Nothing is assumed of the result; every caller must be
/// correct for every value that comes back.
pub assume_specification<T>[ rand::random::<T> ]() -> (r: T)
    where
        rand::distributions::Standard: rand::distributions::Distribution<T>,
;

} // verus!
