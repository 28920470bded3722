//! Small string helpers shared across the engine.

use vstd::prelude::*;

verus! {

/// Relies on `str::eq` (`==` on string slices): two slices are equal
/// exactly when they hold the same characters.
#[verifier::external_body]
pub fn str_eq(a: &str, b: &str) -> (r: bool)
    ensures
        r == (a@ == b@),
{
    a == b
}

} // verus!
