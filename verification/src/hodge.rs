//! Hodge decomposition on Kähler manifolds.
//!
//! On a Kähler manifold the Hodge decomposition is finer than the real one:
//! `Hᵏ(M) = ⊕_{p+q=k} H^{p,q}(M)`, with `H^{p,q}` conjugate to `H^{q,p}`.
use vstd::prelude::*;
use crate::matrix::{
    lemma_sum_ext,
    lemma_sum_reverse,
    lemma_sum_scale,
    lemma_sum_swap,
    lemma_sum_window,
    sum_to,
};

verus! {

/// Hodge diamond for a Kähler manifold of complex dimension n.
///
/// The (p,q) entry counts the dimension of H^{p,q}, stored as `diamond[p][q]`.
/// Entries that the table does not hold count as 0.
#[derive(Clone, Debug, PartialEq, Eq)]
pub struct HodgeDiamond {
    /// Complex dimension n.
    pub complex_dim: usize,
    /// Hodge numbers h^{p,q} stored as diamond[p][q].
    pub diamond: Vec<Vec<usize>>,
}

/// (-1)^k as an integer.
pub open spec fn alternating_sign(k: int) -> int {
    if k % 2 == 0 {
        1
    } else {
        -1
    }
}

/// The Hodge numbers of a Calabi–Yau 3-fold with the given h^{1,1} and h^{2,1}.
pub open spec fn cy3_entry(h11: nat, h21: nat, p: int, q: int) -> nat {
    if (p == 0 && q == 0) || (p == 3 && q == 3) || (p == 3 && q == 0) || (p == 0 && q == 3) {
        1
    } else if (p == 1 && q == 1) || (p == 2 && q == 2) {
        h11
    } else if (p == 2 && q == 1) || (p == 1 && q == 2) {
        h21
    } else {
        0
    }
}

impl HodgeDiamond {
    /// h^{p,q}: the stored entry, or 0 where the table holds none.
    pub open spec fn h(&self, p: int, q: int) -> nat {
        if 0 <= p < self.diamond@.len() && 0 <= q < self.diamond@[p]@.len() {
            self.diamond@[p]@[q] as nat
        } else {
            0
        }
    }

    /// The term of b_k that comes from H^{p, k-p}, if both indices lie in [0, n].
    pub open spec fn betti_term(&self, k: int, p: int) -> nat {
        if 0 <= p <= self.complex_dim && 0 <= k - p <= self.complex_dim {
            self.h(p, k - p)
        } else {
            0
        }
    }

    /// Σ_{0 ≤ p < m} of the terms of b_k.
    pub open spec fn betti_partial(&self, k: int, m: nat) -> nat
        decreases m,
    {
        if m == 0 {
            0
        } else {
            self.betti_partial(k, (m - 1) as nat) + self.betti_term(k, m - 1)
        }
    }

    /// b_k = Σ_{p+q=k, 0 ≤ p,q ≤ n} h^{p,q}.
    pub open spec fn betti(&self, k: int) -> nat {
        self.betti_partial(k, (self.complex_dim + 1) as nat)
    }

    /// h^{p,q} = h^{q,p} for all 0 ≤ p,q ≤ n.
    pub open spec fn is_symmetric(&self) -> bool {
        forall|p: int, q: int|
            0 <= p <= self.complex_dim && 0 <= q <= self.complex_dim ==> #[trigger] self.h(p, q)
                == self.h(q, p)
    }

    /// h^{p,q} = h^{n-p,n-q} for all 0 ≤ p,q ≤ n.
    pub open spec fn is_serre_dual(&self) -> bool {
        forall|p: int, q: int|
            0 <= p <= self.complex_dim && 0 <= q <= self.complex_dim ==> #[trigger] self.h(p, q)
                == self.h(self.complex_dim - p, self.complex_dim - q)
    }

    /// The (p, q, h^{p,q}) triples with p < m, p + q = k, 0 ≤ p,q ≤ n and h^{p,q} > 0,
    /// in increasing order of p.
    pub open spec fn decomposition_upto(&self, k: int, m: nat) -> Seq<(usize, usize, usize)>
        decreases m,
    {
        if m == 0 {
            seq![]
        } else {
            let prev = self.decomposition_upto(k, (m - 1) as nat);
            let p = m - 1;
            if self.betti_term(k, p) > 0 {
                prev.push((p as usize, (k - p) as usize, self.h(p, k - p) as usize))
            } else {
                prev
            }
        }
    }

    /// The nonzero pieces of H^k = ⊕_{p+q=k} H^{p,q}, in increasing order of p.
    pub open spec fn decomposition_spec(&self, k: int) -> Seq<(usize, usize, usize)> {
        self.decomposition_upto(k, (self.complex_dim + 1) as nat)
    }

    /// Σ_{k < m} (-1)^k b_k.
    pub open spec fn euler_partial(&self, m: nat) -> int
        decreases m,
    {
        if m == 0 {
            0
        } else {
            self.euler_partial((m - 1) as nat) + alternating_sign(m - 1) * self.betti(m - 1)
        }
    }

    /// χ = Σ_{k=0}^{2n} (-1)^k b_k.
    pub open spec fn euler(&self) -> int {
        self.euler_partial((2 * self.complex_dim + 1) as nat)
    }

    /// b_k taken as an `i64` by an `as` cast (which wraps above i64::MAX).
    pub open spec fn betti_as_i64(&self, k: int) -> int {
        (self.betti(k) as i64) as int
    }

    /// Σ_{k < m} (-1)^k (b_k as i64).
    pub open spec fn euler_i64_partial(&self, m: nat) -> int
        decreases m,
    {
        if m == 0 {
            0
        } else {
            self.euler_i64_partial((m - 1) as nat) + alternating_sign(m - 1) * self.betti_as_i64(
                m - 1,
            )
        }
    }

    /// The diamond of CP^n: complex dimension n, h^{p,p} = 1 for 0 ≤ p ≤ n, all else 0.
    pub open spec fn is_cp_n(&self, n: nat) -> bool {
        &&& self.complex_dim == n
        &&& forall|p: int, q: int| #[trigger]
            self.h(p, q) == (if 0 <= p <= n && p == q {
                1nat
            } else {
                0nat
            })
    }

    /// The diamond of a Calabi–Yau 3-fold with the given h^{1,1} and h^{2,1}.
    pub open spec fn is_cy3(&self, h11: nat, h21: nat) -> bool {
        &&& self.complex_dim == 3
        &&& forall|p: int, q: int| #[trigger] self.h(p, q) == cy3_entry(h11, h21, p, q)
    }

    /// Create the Hodge diamond for CP^n.
    ///
    /// CP^n has h^{p,p} = 1 for 0 ≤ p ≤ n, and all other h^{p,q} = 0.
    pub fn cp_n(n: usize) -> (hd: Self)
        requires
            n < usize::MAX,
        ensures
            hd.is_cp_n(n as nat),
            hd.diamond@.len() == n + 1,
            forall|p: int| 0 <= p <= n ==> (#[trigger] hd.diamond@[p])@.len() == n + 1,
    {
        let mut diamond: Vec<Vec<usize>> = Vec::new();
        let mut p: usize = 0;
        while p < n + 1
            invariant
                p <= n + 1,
                n < usize::MAX,
                diamond@.len() == p,
                forall|a: int| 0 <= a < p ==> (#[trigger] diamond@[a])@.len() == n + 1,
                forall|a: int, b: int|
                    0 <= a < p && 0 <= b <= n ==> #[trigger] diamond@[a]@[b] == (if a == b {
                        1usize
                    } else {
                        0usize
                    }),
            decreases n + 1 - p,
        {
            let mut row: Vec<usize> = Vec::new();
            let mut q: usize = 0;
            while q < n + 1
                invariant
                    q <= n + 1,
                    n < usize::MAX,
                    p <= n,
                    row@.len() == q,
                    forall|b: int| 0 <= b < q ==> #[trigger] row@[b] == (if p == b {
                        1usize
                    } else {
                        0usize
                    }),
                decreases n + 1 - q,
            {
                if q == p {
                    row.push(1);
                } else {
                    row.push(0);
                }
                q += 1;
            }
            diamond.push(row);
            p += 1;
        }
        let hd = HodgeDiamond { complex_dim: n, diamond };
        assert forall|a: int, b: int| #[trigger]
            hd.h(a, b) == (if 0 <= a <= n && a == b {
                1nat
            } else {
                0nat
            }) by {
            if 0 <= a <= n && 0 <= b <= n {
                assert(hd.diamond@[a]@[b] == (if a == b {
                    1usize
                } else {
                    0usize
                }));
            }
        }
        hd
    }

    /// Create the Hodge diamond for a Calabi-Yau 3-fold.
    ///
    /// Generic form with h^{1,1} and h^{2,1} as parameters:
    /// h^{0,0} = h^{3,3} = h^{3,0} = h^{0,3} = 1, h^{1,1} = h^{2,2} = h11,
    /// h^{2,1} = h^{1,2} = h21, all other entries 0.
    pub fn cy3(h11: usize, h21: usize) -> (hd: Self)
        ensures
            hd.is_cy3(h11 as nat, h21 as nat),
            hd.diamond@.len() == 4,
            forall|p: int| 0 <= p < 4 ==> (#[trigger] hd.diamond@[p])@.len() == 4,
    {
        let row0: Vec<usize> = vec![1, 0, 0, 1];
        let row1: Vec<usize> = vec![0, h11, h21, 0];
        let row2: Vec<usize> = vec![0, h21, h11, 0];
        let row3: Vec<usize> = vec![1, 0, 0, 1];
        let diamond: Vec<Vec<usize>> = vec![row0, row1, row2, row3];
        let hd = HodgeDiamond { complex_dim: 3, diamond };
        assert forall|p: int, q: int| #[trigger]
            hd.h(p, q) == cy3_entry(h11 as nat, h21 as nat, p, q) by {
            if 0 <= p < 4 && 0 <= q < 4 {
                assert(hd.diamond@[p] == diamond@[p]);
            }
        }
        hd
    }

    /// Get h^{p,q} (0 where the table holds no entry).
    pub fn get(&self, p: usize, q: usize) -> (r: usize)
        ensures
            r == self.h(p as int, q as int),
    {
        if p < self.diamond.len() && q < self.diamond[p].len() {
            self.diamond[p][q]
        } else {
            0
        }
    }

    /// The k-th Betti number: b_k = Σ_{p+q=k} h^{p,q}.
    pub fn betti_number(&self, k: usize) -> (b: usize)
        requires
            self.betti(k as int) <= usize::MAX,
        ensures
            b == self.betti(k as int),
    {
        let n = self.complex_dim;
        let m = if k < n {
            k
        } else {
            n
        };
        let mut sum: usize = 0;
        let mut p: usize = 0;
        loop
            invariant_except_break
                sum == self.betti_partial(k as int, p as nat),
            invariant
                n == self.complex_dim,
                m <= n,
                m <= k,
                m == k || m == n,
                p <= m,
                self.betti(k as int) <= usize::MAX,
            ensures
                sum == self.betti_partial(k as int, (m + 1) as nat),
            decreases m - p,
        {
            let q = k - p;
            proof {
                lemma_betti_partial_monotone(*self, k as int, (p + 1) as nat, (n + 1) as nat);
            }
            if q <= n {
                let h = self.get(p, q);
                sum = sum + h;
            }
            if p == m {
                break ;
            }
            p += 1;
        }
        proof {
            lemma_betti_partial_zero_tail(*self, k as int, (m + 1) as nat, (n + 1) as nat);
        }
        sum
    }

    /// Verify the symmetry h^{p,q} = h^{q,p}.
    pub fn verify_symmetry(&self) -> (r: bool)
        ensures
            r == self.is_symmetric(),
    {
        let n = self.complex_dim;
        let mut p: usize = 0;
        loop
            invariant_except_break
                forall|a: int, b: int|
                    0 <= a < p && 0 <= b <= n ==> #[trigger] self.h(a, b) == self.h(b, a),
            invariant
                n == self.complex_dim,
                p <= n,
            ensures
                forall|a: int, b: int|
                    0 <= a <= n && 0 <= b <= n ==> #[trigger] self.h(a, b) == self.h(b, a),
            decreases n - p,
        {
            let mut q: usize = 0;
            loop
                invariant_except_break
                    forall|b: int| 0 <= b < q ==> #[trigger] self.h(p as int, b) == self.h(b, p as int),
                invariant
                    n == self.complex_dim,
                    p <= n,
                    q <= n,
                    forall|a: int, b: int|
                        0 <= a < p && 0 <= b <= n ==> #[trigger] self.h(a, b) == self.h(b, a),
                ensures
                    forall|b: int| 0 <= b <= n ==> #[trigger] self.h(p as int, b) == self.h(b, p as int),
                decreases n - q,
            {
                if self.get(p, q) != self.get(q, p) {
                    return false;
                }
                if q == n {
                    break ;
                }
                q += 1;
            }
            if p == n {
                break ;
            }
            p += 1;
        }
        true
    }

    /// Verify the Serre duality: h^{p,q} = h^{n-p,n-q}.
    pub fn verify_serre_duality(&self) -> (r: bool)
        ensures
            r == self.is_serre_dual(),
    {
        let n = self.complex_dim;
        let mut p: usize = 0;
        loop
            invariant_except_break
                forall|a: int, b: int|
                    0 <= a < p && 0 <= b <= n ==> #[trigger] self.h(a, b) == self.h(n - a, n - b),
            invariant
                n == self.complex_dim,
                p <= n,
            ensures
                forall|a: int, b: int|
                    0 <= a <= n && 0 <= b <= n ==> #[trigger] self.h(a, b) == self.h(n - a, n - b),
            decreases n - p,
        {
            let mut q: usize = 0;
            loop
                invariant_except_break
                    forall|b: int|
                        0 <= b < q ==> #[trigger] self.h(p as int, b) == self.h(n - p, n - b),
                invariant
                    n == self.complex_dim,
                    p <= n,
                    q <= n,
                    forall|a: int, b: int|
                        0 <= a < p && 0 <= b <= n ==> #[trigger] self.h(a, b) == self.h(n - a, n - b),
                ensures
                    forall|b: int|
                        0 <= b <= n ==> #[trigger] self.h(p as int, b) == self.h(n - p, n - b),
                decreases n - q,
            {
                if self.get(p, q) != self.get(n - p, n - q) {
                    return false;
                }
                if q == n {
                    break ;
                }
                q += 1;
            }
            if p == n {
                break ;
            }
            p += 1;
        }
        true
    }

    /// The Hodge decomposition: H^k = ⊕_{p+q=k} H^{p,q}.
    /// Returns the (p, q, h^{p,q}) triples with h^{p,q} > 0, in increasing order of p.
    pub fn decomposition(&self, k: usize) -> (d: Vec<(usize, usize, usize)>)
        ensures
            d@ == self.decomposition_spec(k as int),
    {
        let n = self.complex_dim;
        let m = if k < n {
            k
        } else {
            n
        };
        let mut result: Vec<(usize, usize, usize)> = Vec::new();
        let mut p: usize = 0;
        loop
            invariant_except_break
                result@ == self.decomposition_upto(k as int, p as nat),
            invariant
                n == self.complex_dim,
                m <= n,
                m <= k,
                m == k || m == n,
                p <= m,
            ensures
                result@ == self.decomposition_upto(k as int, (m + 1) as nat),
            decreases m - p,
        {
            let q = k - p;
            if q <= n {
                let h = self.get(p, q);
                if h > 0 {
                    result.push((p, q, h));
                }
            }
            if p == m {
                break ;
            }
            p += 1;
        }
        proof {
            lemma_decomposition_zero_tail(*self, k as int, (m + 1) as nat, (n + 1) as nat);
        }
        result
    }

    /// The Euler characteristic: χ = Σ_k (-1)^k b_k.
    ///
    /// Each Betti number is taken as an `i64` (`as` cast) before it is summed, so the
    /// result is Σ_k (-1)^k (b_k as i64); it equals χ whenever every b_k fits in an `i64`.
    pub fn euler_characteristic(&self) -> (chi: i64)
        requires
            2 * self.complex_dim <= usize::MAX,
            forall|k: int|
                0 <= k <= 2 * self.complex_dim ==> #[trigger] self.betti(k) <= usize::MAX && (k % 2
                    == 1 ==> self.betti_as_i64(k) != i64::MIN),
            forall|m: nat|
                m <= 2 * self.complex_dim + 1 ==> i64::MIN <= #[trigger] self.euler_i64_partial(m)
                    <= i64::MAX,
        ensures
            chi == self.euler_i64_partial((2 * self.complex_dim + 1) as nat),
            (forall|k: int| 0 <= k <= 2 * self.complex_dim ==> #[trigger] self.betti(k) <= i64::MAX)
                ==> chi == self.euler(),
    {
        let top = 2 * self.complex_dim;
        let mut chi: i64 = 0;
        let mut k: usize = 0;
        while k <= top
            invariant
                top == 2 * self.complex_dim,
                k <= top + 1,
                chi == self.euler_i64_partial(k as nat),
                forall|j: int|
                    0 <= j <= 2 * self.complex_dim ==> #[trigger] self.betti(j) <= usize::MAX && (j
                        % 2 == 1 ==> self.betti_as_i64(j) != i64::MIN),
                forall|j: nat|
                    j <= 2 * self.complex_dim + 1 ==> i64::MIN <= #[trigger] self.euler_i64_partial(
                        j,
                    ) <= i64::MAX,
            decreases top + 1 - k,
        {
            assert(self.betti(k as int) <= usize::MAX);
            let b = self.betti_number(k);
            assert(self.euler_i64_partial((k + 1) as nat) == self.euler_i64_partial(k as nat)
                + alternating_sign(k as int) * self.betti_as_i64(k as int));
            assert(i64::MIN <= self.euler_i64_partial((k + 1) as nat) <= i64::MAX);
            let bi = b as i64;
            assert(bi as int == self.betti_as_i64(k as int));
            let term: i64 = if k % 2 == 0 {
                bi
            } else {
                -bi
            };
            assert(term == alternating_sign(k as int) * self.betti_as_i64(k as int));
            chi = chi + term;
            k += 1;
        }
        proof {
            if forall|j: int| 0 <= j <= 2 * self.complex_dim ==> #[trigger] self.betti(j) <= i64::MAX {
                lemma_euler_i64_partial_exact(*self, (2 * self.complex_dim + 1) as nat);
            }
        }
        chi
    }
}

/// Where the Betti numbers fit in an `i64`, the `i64` partial sums are the exact ones.
proof fn lemma_euler_i64_partial_exact(hd: HodgeDiamond, m: nat)
    requires
        forall|k: int| 0 <= k < m ==> #[trigger] hd.betti(k) <= i64::MAX,
    ensures
        hd.euler_i64_partial(m) == hd.euler_partial(m),
    decreases m,
{
    if m > 0 {
        lemma_euler_i64_partial_exact(hd, (m - 1) as nat);
        assert(hd.betti(m - 1) <= i64::MAX);
        assert(hd.betti_as_i64(m - 1) == hd.betti(m - 1));
    }
}

/// Partial Betti sums grow with the number of terms.
proof fn lemma_betti_partial_monotone(hd: HodgeDiamond, k: int, a: nat, b: nat)
    requires
        a <= b,
    ensures
        hd.betti_partial(k, a) <= hd.betti_partial(k, b),
    decreases b,
{
    if a < b {
        lemma_betti_partial_monotone(hd, k, a, (b - 1) as nat);
    }
}

/// Terms that vanish do not change a partial Betti sum.
proof fn lemma_betti_partial_zero_tail(hd: HodgeDiamond, k: int, a: nat, b: nat)
    requires
        a <= b,
        forall|p: int| a <= p < b ==> #[trigger] hd.betti_term(k, p) == 0,
    ensures
        hd.betti_partial(k, b) == hd.betti_partial(k, a),
    decreases b,
{
    if a < b {
        lemma_betti_partial_zero_tail(hd, k, a, (b - 1) as nat);
    }
}

/// Terms that vanish add nothing to a partial decomposition.
proof fn lemma_decomposition_zero_tail(hd: HodgeDiamond, k: int, a: nat, b: nat)
    requires
        a <= b,
        forall|p: int| a <= p < b ==> #[trigger] hd.betti_term(k, p) == 0,
    ensures
        hd.decomposition_upto(k, b) == hd.decomposition_upto(k, a),
    decreases b,
{
    if a < b {
        lemma_decomposition_zero_tail(hd, k, a, (b - 1) as nat);
    }
}



/// Σ of the h components of a list of (p, q, h) triples.
pub open spec fn decomposition_total(d: Seq<(usize, usize, usize)>) -> nat
    decreases d.len(),
{
    if d.len() == 0 {
        0
    } else {
        decomposition_total(d.drop_last()) + d.last().2 as nat
    }
}

proof fn lemma_decomposition_upto_total(hd: HodgeDiamond, k: int, m: nat)
    ensures
        decomposition_total(hd.decomposition_upto(k, m)) == hd.betti_partial(k, m),
    decreases m,
{
    if m > 0 {
        lemma_decomposition_upto_total(hd, k, (m - 1) as nat);
        let prev = hd.decomposition_upto(k, (m - 1) as nat);
        let p = m - 1;
        if hd.betti_term(k, p) > 0 {
            let x = (p as usize, (k - p) as usize, hd.h(p, k - p) as usize);
            assert(prev.push(x).drop_last() =~= prev);
        }
    }
}

proof fn lemma_decomposition_upto_entries(hd: HodgeDiamond, k: int, m: nat)
    requires
        m <= hd.complex_dim + 1,
    ensures
        forall|i: int|
            0 <= i < hd.decomposition_upto(k, m).len() ==> {
                let (p, q, h) = #[trigger] hd.decomposition_upto(k, m)[i];
                &&& p < m
                &&& p + q == k
                &&& p <= hd.complex_dim
                &&& q <= hd.complex_dim
                &&& h == hd.h(p as int, q as int)
                &&& h > 0
            },
        forall|i: int, j: int|
            0 <= i < j < hd.decomposition_upto(k, m).len() ==> (#[trigger] hd.decomposition_upto(
                k,
                m,
            )[i]).0 < (#[trigger] hd.decomposition_upto(k, m)[j]).0,
        forall|p: int|
            0 <= p < m && #[trigger] hd.betti_term(k, p) > 0 ==> exists|i: int|
                0 <= i < hd.decomposition_upto(k, m).len() && #[trigger] hd.decomposition_upto(
                    k,
                    m,
                )[i] == (p as usize, (k - p) as usize, hd.h(p, k - p) as usize),
    decreases m,
{
    if m > 0 {
        lemma_decomposition_upto_entries(hd, k, (m - 1) as nat);
        let prev = hd.decomposition_upto(k, (m - 1) as nat);
        let p = m - 1;
        if hd.betti_term(k, p) > 0 {
            let x = (p as usize, (k - p) as usize, hd.h(p, k - p) as usize);
            let cur = prev.push(x);
            assert(hd.decomposition_upto(k, m) == cur);
            assert(hd.diamond@[p]@[k - p] as nat == hd.h(p, k - p));
            assert(x.0 as int == p && x.1 as int == k - p && x.2 as nat == hd.h(p, k - p));
            assert forall|i: int| 0 <= i < cur.len() - 1 implies #[trigger] cur[i] == prev[i] by {}
            assert(cur[cur.len() - 1] == x);
        }
        assert forall|p2: int|
            0 <= p2 < m && #[trigger] hd.betti_term(k, p2) > 0 implies exists|i: int|
                0 <= i < hd.decomposition_upto(k, m).len() && #[trigger] hd.decomposition_upto(
                    k,
                    m,
                )[i] == (p2 as usize, (k - p2) as usize, hd.h(p2, k - p2) as usize) by {
            if p2 < p {
                let i = choose|i: int|
                    0 <= i < prev.len() && #[trigger] prev[i] == (
                        p2 as usize,
                        (k - p2) as usize,
                        hd.h(p2, k - p2) as usize,
                    );
                assert(hd.decomposition_upto(k, m)[i] == prev[i]);
            } else {
                let cur = hd.decomposition_upto(k, m);
                assert(cur[cur.len() - 1] == (p2 as usize, (k - p2) as usize, hd.h(p2, k - p2) as usize));
            }
        }
    }
}

/// Hodge decomposition: the pieces listed for H^k add up to b_k; each listed
/// piece (p, q, h) has p + q = k, 0 ≤ p,q ≤ n, h = h^{p,q} > 0, in increasing order of p;
/// and every (p, k - p) with 0 ≤ p, k - p ≤ n and h^{p,k-p} > 0 is listed.
pub proof fn lemma_decomposition_sums_to_betti(hd: HodgeDiamond, k: int)
    ensures
        decomposition_total(hd.decomposition_spec(k)) == hd.betti(k),
        forall|i: int|
            0 <= i < hd.decomposition_spec(k).len() ==> {
                let (p, q, h) = #[trigger] hd.decomposition_spec(k)[i];
                &&& p + q == k
                &&& p <= hd.complex_dim
                &&& q <= hd.complex_dim
                &&& h == hd.h(p as int, q as int)
                &&& h > 0
            },
        forall|i: int, j: int|
            0 <= i < j < hd.decomposition_spec(k).len() ==> (#[trigger] hd.decomposition_spec(
                k,
            )[i]).0 < (#[trigger] hd.decomposition_spec(k)[j]).0,
        forall|p: int|
            0 <= p <= hd.complex_dim && 0 <= k - p <= hd.complex_dim && #[trigger] hd.h(p, k - p)
                > 0 ==> exists|i: int|
                0 <= i < hd.decomposition_spec(k).len() && #[trigger] hd.decomposition_spec(k)[i]
                    == (p as usize, (k - p) as usize, hd.h(p, k - p) as usize),
{
    lemma_decomposition_upto_total(hd, k, (hd.complex_dim + 1) as nat);
    lemma_decomposition_upto_entries(hd, k, (hd.complex_dim + 1) as nat);
    assert forall|p: int|
        0 <= p <= hd.complex_dim && 0 <= k - p <= hd.complex_dim && #[trigger] hd.h(p, k - p)
            > 0 implies exists|i: int|
            0 <= i < hd.decomposition_spec(k).len() && #[trigger] hd.decomposition_spec(k)[i] == (
                p as usize,
                (k - p) as usize,
                hd.h(p, k - p) as usize,
            ) by {
        let m = (hd.complex_dim + 1) as nat;
        assert(hd.betti_term(k, p) > 0);
        let i = choose|i: int|
            0 <= i < hd.decomposition_upto(k, m).len() && #[trigger] hd.decomposition_upto(k, m)[i]
                == (p as usize, (k - p) as usize, hd.h(p, k - p) as usize);
        assert(hd.decomposition_spec(k)[i] == hd.decomposition_upto(k, m)[i]);
    }
}

/// The Hodge diamond of CP^n satisfies Hodge symmetry h^{p,q} = h^{q,p}
/// and Serre duality h^{p,q} = h^{n-p,n-q}.
pub proof fn lemma_cp_n_symmetric(hd: HodgeDiamond, n: nat)
    requires
        hd.is_cp_n(n),
    ensures
        hd.is_symmetric(),
        hd.is_serre_dual(),
{
}

proof fn lemma_cp_n_betti_partial(hd: HodgeDiamond, n: nat, k: int, m: nat)
    requires
        hd.is_cp_n(n),
        m <= n + 1,
        0 <= k,
    ensures
        hd.betti_partial(k, m) == (if k % 2 == 0 && k / 2 < m {
            1nat
        } else {
            0nat
        }),
    decreases m,
{
    if m > 0 {
        lemma_cp_n_betti_partial(hd, n, k, (m - 1) as nat);
        assert(hd.h(m - 1, k - (m - 1)) == (if 0 <= m - 1 <= n && m - 1 == k - (m - 1) {
            1nat
        } else {
            0nat
        }));
    }
}

/// The Betti numbers of CP^n: b_k = 1 for even k ≤ 2n, and 0 otherwise.
pub proof fn lemma_cp_n_betti(hd: HodgeDiamond, n: nat, k: int)
    requires
        hd.is_cp_n(n),
        0 <= k,
    ensures
        hd.betti(k) == (if k % 2 == 0 && k <= 2 * n {
            1nat
        } else {
            0nat
        }),
{
    lemma_cp_n_betti_partial(hd, n, k, n + 1);
}

proof fn lemma_cp_n_euler_partial(hd: HodgeDiamond, n: nat, m: nat)
    requires
        hd.is_cp_n(n),
        m <= 2 * n + 1,
    ensures
        hd.euler_partial(m) == (m + 1) / 2,
    decreases m,
{
    if m > 0 {
        lemma_cp_n_euler_partial(hd, n, (m - 1) as nat);
        lemma_cp_n_betti(hd, n, m - 1);
    }
}

/// The Euler characteristic of CP^n is n + 1.
pub proof fn lemma_cp_n_euler(hd: HodgeDiamond, n: nat)
    requires
        hd.is_cp_n(n),
    ensures
        hd.euler() == n + 1,
{
    lemma_cp_n_euler_partial(hd, n, 2 * n + 1);
}

/// The Hodge diamond of a Calabi–Yau 3-fold satisfies Hodge symmetry and Serre duality.
pub proof fn lemma_cy3_symmetric(hd: HodgeDiamond, h11: nat, h21: nat)
    requires
        hd.is_cy3(h11, h21),
    ensures
        hd.is_symmetric(),
        hd.is_serre_dual(),
{
}

/// The Betti numbers of a Calabi–Yau 3-fold:
/// b_0 = b_6 = 1, b_1 = b_5 = 0, b_2 = b_4 = h11, b_3 = 2 + 2·h21.
pub proof fn lemma_cy3_betti(hd: HodgeDiamond, h11: nat, h21: nat)
    requires
        hd.is_cy3(h11, h21),
    ensures
        hd.betti(0) == 1,
        hd.betti(1) == 0,
        hd.betti(2) == h11,
        hd.betti(3) == 2 + 2 * h21,
        hd.betti(4) == h11,
        hd.betti(5) == 0,
        hd.betti(6) == 1,
        forall|k: int| k > 6 ==> #[trigger] hd.betti(k) == 0,
{
    reveal_with_fuel(HodgeDiamond::betti_partial, 5);
    assert forall|k: int| k > 6 implies #[trigger] hd.betti(k) == 0 by {
        lemma_betti_partial_zero_tail(hd, k, 0, 4);
    }
}

/// The Euler characteristic of a Calabi–Yau 3-fold is 2(h^{1,1} - h^{2,1}).
pub proof fn lemma_cy3_euler(hd: HodgeDiamond, h11: nat, h21: nat)
    requires
        hd.is_cy3(h11, h21),
    ensures
        hd.euler() == 2 * (h11 - h21),
{
    lemma_cy3_betti(hd, h11, h21);
    reveal_with_fuel(HodgeDiamond::euler_partial, 8);
}


/// The terms of b_k as a function of p.
pub open spec fn betti_terms(hd: HodgeDiamond, k: int) -> spec_fn(int) -> int {
    |p: int| hd.betti_term(k, p) as int
}

proof fn lemma_betti_partial_is_sum(hd: HodgeDiamond, k: int, m: nat)
    ensures
        hd.betti_partial(k, m) == sum_to(betti_terms(hd, k), m),
    decreases m,
{
    if m > 0 {
        lemma_betti_partial_is_sum(hd, k, (m - 1) as nat);
    }
}

/// Poincaré duality for Betti numbers: where Serre duality h^{p,q} = h^{n-p,n-q}
/// holds, b_k = b_{2n-k}.
pub proof fn lemma_serre_duality_gives_poincare_duality(hd: HodgeDiamond, k: int)
    requires
        hd.is_serre_dual(),
    ensures
        hd.betti(k) == hd.betti(2 * hd.complex_dim - k),
{
    let n = hd.complex_dim as int;
    let t = betti_terms(hd, k);
    let t_dual = betti_terms(hd, 2 * n - k);
    assert forall|p: int| #[trigger] t_dual(p) == t(n - p) by {
        if 0 <= p <= n && 0 <= 2 * n - k - p <= n {
            assert(hd.h(p, 2 * n - k - p) == hd.h(n - p, n - (2 * n - k - p)));
        }
    }
    assert(t_dual =~= (|p: int| t((n + 1) - 1 - p)));
    lemma_sum_reverse(t, (n + 1) as nat);
    lemma_betti_partial_is_sum(hd, k, (n + 1) as nat);
    lemma_betti_partial_is_sum(hd, 2 * n - k, (n + 1) as nat);
}


/// A diamond passes the Hodge symmetry check exactly when h^{p,q} = h^{q,p}
/// for every 0 ≤ p, q ≤ n.
pub proof fn lemma_symmetric_iff(hd: HodgeDiamond)
    ensures
        hd.is_symmetric() <==> (forall|p: int, q: int|
            0 <= p <= hd.complex_dim && 0 <= q <= hd.complex_dim ==> #[trigger] hd.h(p, q) == hd.h(
                q,
                p,
            )),
{
}

/// A diamond passes the Serre duality check exactly when h^{p,q} = h^{n-p,n-q}
/// for every 0 ≤ p, q ≤ n.
pub proof fn lemma_serre_dual_iff(hd: HodgeDiamond)
    ensures
        hd.is_serre_dual() <==> (forall|p: int, q: int|
            0 <= p <= hd.complex_dim && 0 <= q <= hd.complex_dim ==> #[trigger] hd.h(p, q) == hd.h(
                hd.complex_dim - p,
                hd.complex_dim - q,
            )),
{
}


/// h^{p,q} weighted by (-1)^{p+q}.
pub open spec fn signed_hodge_number(hd: HodgeDiamond, p: int, q: int) -> int {
    if (p + q) % 2 == 0 {
        hd.h(p, q) as int
    } else {
        -(hd.h(p, q) as int)
    }
}

proof fn lemma_euler_partial_is_sum(hd: HodgeDiamond, m: nat)
    ensures
        hd.euler_partial(m) == sum_to(|k: int| alternating_sign(k) * hd.betti(k), m),
    decreases m,
{
    if m > 0 {
        lemma_euler_partial_is_sum(hd, (m - 1) as nat);
    }
}

/// The Euler characteristic of a Hodge diamond is Σ_{0 ≤ p,q ≤ n} (-1)^{p+q} h^{p,q}:
/// every h^{p,q} with p + q odd counts negatively, every one with p + q even positively.
pub proof fn lemma_euler_is_signed_hodge_sum(hd: HodgeDiamond)
    ensures
        hd.euler() == sum_to(
            |p: int| sum_to(|q: int| signed_hodge_number(hd, p, q), (hd.complex_dim + 1) as nat),
            (hd.complex_dim + 1) as nat,
        ),
{
    let n = hd.complex_dim as int;
    let nn = (n + 1) as nat;
    let mm = (2 * n + 1) as nat;
    let f = |k: int, p: int| alternating_sign(k) * (hd.betti_term(k, p) as int);
    lemma_euler_partial_is_sum(hd, mm);
    let by_degree = |k: int| alternating_sign(k) * hd.betti(k);
    let rows = |k: int| sum_to(|p: int| f(k, p), nn);
    assert forall|k: int| 0 <= k < mm implies #[trigger] by_degree(k) == rows(k) by {
        lemma_betti_partial_is_sum(hd, k, nn);
        let c = alternating_sign(k);
        let t = betti_terms(hd, k);
        lemma_sum_scale(c, t, nn);
        assert((|p: int| c * t(p)) =~= (|p: int| f(k, p)));
    }
    lemma_sum_ext(by_degree, rows, mm);
    lemma_sum_swap(f, mm, nn);
    let cols = |p: int| sum_to(|k: int| f(k, p), mm);
    let target = |p: int| sum_to(|q: int| signed_hodge_number(hd, p, q), nn);
    assert forall|p: int| 0 <= p < nn implies #[trigger] cols(p) == target(p) by {
        let g = |k: int| f(k, p);
        assert forall|k: int| 0 <= k < mm && (k < p || k >= p + nn) implies #[trigger] g(k) == 0 by {}
        lemma_sum_window(g, p as nat, nn, mm);
        let shifted = |q: int| g(p + q);
        let signed = |q: int| signed_hodge_number(hd, p, q);
        assert forall|q: int| 0 <= q < nn implies #[trigger] shifted(q) == signed(q) by {
            assert(p + q - p == q);
            assert(hd.betti_term(p + q, p) == hd.h(p, q));
            if (p + q) % 2 == 0 {
                assert(alternating_sign(p + q) == 1);
            } else {
                assert(alternating_sign(p + q) == -1);
            }
        }
        lemma_sum_ext(shifted, signed, nn);
    }
    lemma_sum_ext(cols, target, nn);
}

} // verus!
