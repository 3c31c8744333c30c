//! The standard complex structure J on ℝ²ⁿ, with J² = -Id.
use vstd::prelude::*;
use crate::matrix::{delta, has_entries, identity, lemma_sum_single, product, product_entry};

verus! {

/// Entry (i, k) of the standard complex structure J = [[0, -I], [I, 0]] on ℝ²ⁿ.
pub open spec fn standard_j_entry(n: int, i: int, k: int) -> int {
    if 0 <= i < n && k == n + i {
        -1
    } else if n <= i < 2 * n && k == i - n {
        1
    } else {
        0
    }
}

/// The standard complex structure on ℝ²ⁿ as an entry function.
pub open spec fn standard_j(n: nat) -> spec_fn(int, int) -> int {
    |i: int, k: int| standard_j_entry(n as int, i, k)
}

/// The transpose of the standard complex structure, Jᵀ, as an entry function.
pub open spec fn standard_j_transpose(n: nat) -> spec_fn(int, int) -> int {
    |i: int, k: int| standard_j_entry(n as int, k, i)
}

/// The real dimension 2n of ℂⁿ.
pub fn real_dim(complex_dim: usize) -> (d: usize)
    requires
        2 * complex_dim <= usize::MAX,
    ensures
        d == 2 * complex_dim,
{
    2 * complex_dim
}

/// The matrix of the standard complex structure on ℝ²ⁿ.
///
/// In block form: J = [[0, -I], [I, 0]].
pub fn standard_j_matrix(n: usize) -> (m: Vec<Vec<i64>>)
    requires
        2 * n <= usize::MAX,
    ensures
        has_entries(m@, 2 * n as nat, standard_j(n as nat)),
{
    let dim = 2 * n;
    let mut m: Vec<Vec<i64>> = Vec::new();
    let mut i: usize = 0;
    while i < dim
        invariant
            dim == 2 * n,
            i <= dim,
            m@.len() == i,
            forall|a: int| 0 <= a < i ==> (#[trigger] m@[a])@.len() == dim,
            forall|a: int, b: int|
                0 <= a < i && 0 <= b < dim ==> #[trigger] m@[a]@[b] == standard_j_entry(
                    n as int,
                    a,
                    b,
                ),
        decreases dim - i,
    {
        let mut row: Vec<i64> = Vec::new();
        let mut k: usize = 0;
        while k < dim
            invariant
                dim == 2 * n,
                k <= dim,
                i < dim,
                row@.len() == k,
                forall|b: int|
                    0 <= b < k ==> #[trigger] row@[b] == standard_j_entry(n as int, i as int, b),
            decreases dim - k,
        {
            if i < n && k == n + i {
                row.push(-1);
            } else if i >= n && k == i - n {
                row.push(1);
            } else {
                row.push(0);
            }
            k += 1;
        }
        m.push(row);
        i += 1;
    }
    m
}

/// J = [[0, -I], [I, 0]] block by block: for 0 ≤ a, b < n the upper-left and
/// lower-right blocks vanish, the upper-right block is -I and the lower-left block is I.
pub proof fn lemma_standard_j_blocks(n: nat)
    ensures
        forall|a: int, b: int|
            0 <= a < n && 0 <= b < n ==> {
                &&& #[trigger] standard_j(n)(a, b) == 0
                &&& standard_j(n)(n + a, n + b) == 0
                &&& standard_j(n)(a, n + b) == (if a == b {
                    -1int
                } else {
                    0
                })
                &&& standard_j(n)(n + a, b) == (if a == b {
                    1int
                } else {
                    0
                })
            },
{
}

/// The standard complex structure squares to minus the identity: J² = -Id.
pub proof fn lemma_standard_j_squared(n: nat)
    ensures
        forall|i: int, j: int|
            0 <= i < 2 * n && 0 <= j < 2 * n ==> #[trigger] product_entry(
                standard_j(n),
                standard_j(n),
                2 * n,
                i,
                j,
            ) == -delta(i, j),
{
    assert forall|i: int, j: int| 0 <= i < 2 * n && 0 <= j < 2 * n implies #[trigger] product_entry(
        standard_j(n),
        standard_j(n),
        2 * n,
        i,
        j,
    ) == -delta(i, j) by {
        let jn = standard_j(n);
        let f = |k: int| jn(i, k) * jn(k, j);
        let k0 = if i < n {
            n + i
        } else {
            i - n
        };
        assert forall|k: int| 0 <= k < 2 * n && k != k0 implies #[trigger] f(k) == 0 by {}
        lemma_sum_single(f, 2 * n, k0);
    }
}

/// The standard complex structure is antisymmetric: Jᵀ = -J.
pub proof fn lemma_standard_j_antisymmetric(n: nat)
    ensures
        forall|i: int, k: int| #[trigger] standard_j_entry(n as int, i, k) == -standard_j_entry(n as int, k, i),
{
}

/// The standard complex structure is orthogonal: JᵀJ = Id.
pub proof fn lemma_standard_j_orthogonal(n: nat)
    ensures
        forall|i: int, j: int|
            0 <= i < 2 * n && 0 <= j < 2 * n ==> #[trigger] product_entry(
                standard_j_transpose(n),
                standard_j(n),
                2 * n,
                i,
                j,
            ) == delta(i, j),
{
    assert forall|i: int, j: int| 0 <= i < 2 * n && 0 <= j < 2 * n implies #[trigger] product_entry(
        standard_j_transpose(n),
        standard_j(n),
        2 * n,
        i,
        j,
    ) == delta(i, j) by {
        let jt = standard_j_transpose(n);
        let jn = standard_j(n);
        let f = |k: int| jt(i, k) * jn(k, j);
        let k0 = if i < n {
            n + i
        } else {
            i - n
        };
        assert forall|k: int| 0 <= k < 2 * n && k != k0 implies #[trigger] f(k) == 0 by {}
        lemma_sum_single(f, 2 * n, k0);
    }
}

/// The standard complex structure preserves the identity metric g = Id: Jᵀ g J = g.
pub proof fn lemma_standard_j_compatible_with_identity(n: nat)
    ensures
        forall|i: int, j: int|
            0 <= i < 2 * n && 0 <= j < 2 * n ==> #[trigger] product_entry(
                product(standard_j_transpose(n), identity(), 2 * n),
                standard_j(n),
                2 * n,
                i,
                j,
            ) == delta(i, j),
{
    lemma_standard_j_orthogonal(n);
    let jt = standard_j_transpose(n);
    let jtg = product(jt, identity(), 2 * n);
    assert forall|a: int, b: int| 0 <= a < 2 * n && 0 <= b < 2 * n implies #[trigger] jtg(a, b) == jt(a, b) by {
        crate::matrix::lemma_product_identity_right(jt, 2 * n, a, b);
    }
    assert forall|i: int, j: int| 0 <= i < 2 * n && 0 <= j < 2 * n implies #[trigger] product_entry(
        jtg,
        standard_j(n),
        2 * n,
        i,
        j,
    ) == delta(i, j) by {
        let f = |k: int| jtg(i, k) * standard_j(n)(k, j);
        let g = |k: int| jt(i, k) * standard_j(n)(k, j);
        assert(f =~= g) by {
            assert forall|k: int| #[trigger] f(k) == g(k) by {
                if 0 <= k < 2 * n {
                } else {
                    assert(jt(i, k) == 0);
                }
            }
        }
        assert(product_entry(jt, standard_j(n), 2 * n, i, j) == delta(i, j));
    }
}

} // verus!
