//! Numerical invariants of Calabi–Yau manifolds (Ricci-flat Kähler manifolds).
use vstd::prelude::*;
use crate::hodge::{lemma_cy3_euler, HodgeDiamond};

verus! {

/// χ = 2(h^{1,1} - h^{2,1}) for a Calabi–Yau 3-fold.
pub open spec fn cy3_euler_formula(h11: int, h21: int) -> int {
    2 * (h11 - h21)
}

/// The dimension of the holonomy group SU(n): n² - 1.
pub fn su_n_holonomy_dimension(complex_dim: usize) -> (d: usize)
    requires
        1 <= complex_dim * complex_dim <= usize::MAX,
    ensures
        d == complex_dim * complex_dim - 1,
{
    complex_dim * complex_dim - 1
}

/// Hodge numbers for a Calabi–Yau 3-fold: (h^{1,1}, h^{2,1}).
pub fn hodge_numbers_cy3(h11: usize, h21: usize) -> (r: (usize, usize))
    ensures
        r == (h11, h21),
{
    (h11, h21)
}

/// The Euler characteristic for a CY3: χ = 2(h^{1,1} - h^{2,1}).
///
/// Each Hodge number is taken as an `i64` (`as` cast), as the formula is evaluated in `i64`.
pub fn euler_characteristic_cy3(h11: usize, h21: usize) -> (chi: i64)
    requires
        i64::MIN <= cy3_euler_formula(h11 as i64 as int, h21 as i64 as int) <= i64::MAX,
    ensures
        chi == cy3_euler_formula(h11 as i64 as int, h21 as i64 as int),
        h11 <= i64::MAX && h21 <= i64::MAX ==> chi == cy3_euler_formula(h11 as int, h21 as int),
{
    2 * (h11 as i64 - h21 as i64)
}

/// The Hodge diamond of a Calabi–Yau 3-fold carries the numbers given to it at
/// (1,1) and (2,1), and its Euler characteristic Σ(-1)ᵏbₖ agrees with the
/// closed formula 2(h^{1,1} - h^{2,1}).
pub proof fn lemma_cy3_diamond_matches_formulas(hd: HodgeDiamond, h11: nat, h21: nat)
    requires
        hd.is_cy3(h11, h21),
    ensures
        hd.h(1, 1) == h11,
        hd.h(2, 1) == h21,
        hd.euler() == cy3_euler_formula(h11 as int, h21 as int),
{
    lemma_cy3_euler(hd, h11, h21);
}

} // verus!
