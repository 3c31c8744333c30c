//! Kähler structures: metric g, symplectic form ω, complex structure J.
use vstd::prelude::*;

verus! {

/// The Kähler condition dω = 0.
///
/// On a vector space with constant coefficients, dω = 0 holds automatically,
/// so the check always succeeds.
pub fn is_closed() -> (r: bool)
    ensures
        r,
{
    true
}

} // verus!
