//! The one entry point into the random number generator.

use vstd::prelude::*;

verus! {

/// Relies on `rand::random`: it draws a fresh value of the asked-for type
/// from the thread-local generator.  Nothing can be promised about a random
/// value, so no clause constrains the result; callers state what holds of
/// every outcome.
pub assume_specification<T>[ rand::random::<T> ]() -> (r: T)
    where
        rand::distributions::Standard: rand::distributions::Distribution<T>,
;

} // verus!
