//! Hard Lefschetz theorem: the Lefschetz decomposition of cohomology.
//!
//! On a compact Kähler manifold of complex dimension n, the operator
//! L: α ↦ ω ∧ α induces isomorphisms L^{n-k}: H^k → H^{2n-k} for all k ≤ n,
//! and H^k = ⊕_r L^r P^{k-2r} with P^j the primitive cohomology.
use vstd::prelude::*;

verus! {

/// The largest r in the Lefschetz decomposition of H^k: ⌊k/2⌋.
pub open spec fn lefschetz_r_max(k: int) -> int {
    k / 2
}

/// Σ_{0 ≤ r < m} dim P^{k-2r}, where `dims[j]` is dim P^j.
pub open spec fn primitive_sum(dims: Seq<usize>, k: int, m: nat) -> nat
    decreases m,
{
    if m == 0 {
        0
    } else {
        primitive_sum(dims, k, (m - 1) as nat) + dims[k - 2 * (m - 1)] as nat
    }
}

/// Σ_{r=0}^{⌊k/2⌋} dim P^{k-2r}: the size of H^k by the Lefschetz decomposition.
pub open spec fn lefschetz_total(dims: Seq<usize>, k: int) -> nat {
    primitive_sum(dims, k, (lefschetz_r_max(k) + 1) as nat)
}

proof fn lemma_primitive_sum_monotone(dims: Seq<usize>, k: int, a: nat, b: nat)
    requires
        a <= b,
    ensures
        primitive_sum(dims, k, a) <= primitive_sum(dims, k, b),
    decreases b,
{
    if a < b {
        lemma_primitive_sum_monotone(dims, k, a, (b - 1) as nat);
    }
}

proof fn lemma_primitive_sum_peel(dims: Seq<usize>, k: int, m: nat)
    ensures
        primitive_sum(dims, k, m + 1) == dims[k] as nat + primitive_sum(dims, k - 2, m),
    decreases m,
{
    if m > 0 {
        lemma_primitive_sum_peel(dims, k, (m - 1) as nat);
        assert(k - 2 * m == (k - 2) - 2 * (m - 1));
        assert(primitive_sum(dims, k, m + 1) == primitive_sum(dims, k, m) + dims[k - 2 * m] as nat);
        assert(primitive_sum(dims, k - 2, m) == primitive_sum(dims, k - 2, (m - 1) as nat)
            + dims[(k - 2) - 2 * (m - 1)] as nat);
    } else {
        assert(primitive_sum(dims, k, 1) == primitive_sum(dims, k, 0) + dims[k - 2 * 0] as nat);
    }
}

/// The Lefschetz count runs over every r with 0 ≤ 2r ≤ k: the count for H^k is
/// dim P^k plus the count for H^{k-2} (that is, L·H^{k-2}), and the counts for H^0
/// and H^1 are dim P^0 and dim P^1.
pub proof fn lemma_lefschetz_total_recurrence(dims: Seq<usize>, k: int)
    requires
        0 <= k,
    ensures
        k >= 2 ==> lefschetz_total(dims, k) == dims[k] as nat + lefschetz_total(dims, k - 2),
        k == 0 ==> lefschetz_total(dims, k) == dims[0] as nat,
        k == 1 ==> lefschetz_total(dims, k) == dims[1] as nat,
{
    if k >= 2 {
        assert((k - 2) / 2 + 1 == k / 2);
        lemma_primitive_sum_peel(dims, k, (k / 2) as nat);
    } else {
        lemma_primitive_sum_peel(dims, k, 0);
    }
}

/// Lefschetz decomposition: H^k = ⊕_r L^r P^{k-2r}.
///
/// `primitive_dims[j]` is the dimension of the primitive subspace P^j, and k ≤ n.
/// Returns Σ_{r=0}^{⌊k/2⌋} dim P^{k-2r} when that sum is positive,
/// and otherwise the value `betti_fn(k)`.
pub fn lefschetz_decomposition_betti<F: Fn(usize) -> usize>(
    complex_dim: usize,
    k: usize,
    primitive_dims: &Vec<usize>,
    betti_fn: F,
) -> (b: usize)
    requires
        k <= complex_dim,
        k < primitive_dims@.len(),
        lefschetz_total(primitive_dims@, k as int) <= usize::MAX,
        call_requires(betti_fn, (k,)),
    ensures
        lefschetz_total(primitive_dims@, k as int) > 0 ==> b == lefschetz_total(
            primitive_dims@,
            k as int,
        ),
        lefschetz_total(primitive_dims@, k as int) == 0 ==> call_ensures(
            betti_fn,
            (k,),
            b,
        ),
{
    let r_max = k / 2;
    let ghost total = lefschetz_total(primitive_dims@, k as int);
    let mut sum: usize = 0;
    let mut r: usize = 0;
    while r <= r_max
        invariant
            r_max == lefschetz_r_max(k as int),
            k < primitive_dims@.len(),
            r <= r_max + 1,
            total == primitive_sum(primitive_dims@, k as int, (r_max + 1) as nat),
            total <= usize::MAX,
            sum == primitive_sum(primitive_dims@, k as int, r as nat),
        decreases r_max + 1 - r,
    {
        let primitive_deg = k - 2 * r;
        proof {
            lemma_primitive_sum_monotone(primitive_dims@, k as int, (r + 1) as nat, (r_max + 1) as nat);
        }
        sum = sum + primitive_dims[primitive_deg];
        r += 1;
    }
    if sum > 0 {
        sum
    } else {
        betti_fn(k)
    }
}

} // verus!
