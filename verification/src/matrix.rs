//! Square integer matrices: their entries as spec functions, matrix products as
//! finite sums, and the exact constructions the standard structures are built from.
use vstd::prelude::*;

verus! {

/// Σ_{0 ≤ k < m} f(k).
pub open spec fn sum_to(f: spec_fn(int) -> int, m: nat) -> int
    decreases m,
{
    if m == 0 {
        0
    } else {
        sum_to(f, (m - 1) as nat) + f(m - 1)
    }
}

/// The Kronecker delta δ_{ij}.
pub open spec fn delta(i: int, j: int) -> int {
    if i == j {
        1
    } else {
        0
    }
}

/// The (i, j) entry of the product AB of two d×d matrices: Σ_{k<d} A_{ik} B_{kj}.
pub open spec fn product_entry(
    a: spec_fn(int, int) -> int,
    b: spec_fn(int, int) -> int,
    d: nat,
    i: int,
    j: int,
) -> int {
    sum_to(|k: int| a(i, k) * b(k, j), d)
}

/// The product AB of two d×d matrices as an entry function.
pub open spec fn product(
    a: spec_fn(int, int) -> int,
    b: spec_fn(int, int) -> int,
    d: nat,
) -> spec_fn(int, int) -> int {
    |i: int, j: int| product_entry(a, b, d, i, j)
}

/// The (i, j) entry of the commutator [A, B] = AB - BA of two d×d matrices.
pub open spec fn commutator_entry(
    a: spec_fn(int, int) -> int,
    b: spec_fn(int, int) -> int,
    d: nat,
    i: int,
    j: int,
) -> int {
    product_entry(a, b, d, i, j) - product_entry(b, a, d, i, j)
}

/// The identity matrix as an entry function.
pub open spec fn identity() -> spec_fn(int, int) -> int {
    |i: int, j: int| delta(i, j)
}

/// `m` is a d×d matrix whose entries are given by `f`.
pub open spec fn has_entries(m: Seq<Vec<i64>>, d: nat, f: spec_fn(int, int) -> int) -> bool {
    &&& m.len() == d
    &&& forall|i: int| 0 <= i < d ==> (#[trigger] m[i])@.len() == d
    &&& forall|i: int, j: int| 0 <= i < d && 0 <= j < d ==> #[trigger] m[i]@[j] == f(i, j)
}

/// A sum of vanishing terms is 0.
pub proof fn lemma_sum_zero(f: spec_fn(int) -> int, m: nat)
    requires
        forall|k: int| 0 <= k < m ==> #[trigger] f(k) == 0,
    ensures
        sum_to(f, m) == 0,
    decreases m,
{
    if m > 0 {
        lemma_sum_zero(f, (m - 1) as nat);
    }
}

/// A sum with a single nonvanishing term equals that term.
pub proof fn lemma_sum_single(f: spec_fn(int) -> int, m: nat, k0: int)
    requires
        0 <= k0 < m,
        forall|k: int| 0 <= k < m && k != k0 ==> #[trigger] f(k) == 0,
    ensures
        sum_to(f, m) == f(k0),
    decreases m,
{
    if k0 == m - 1 {
        lemma_sum_zero(f, (m - 1) as nat);
    } else {
        lemma_sum_single(f, (m - 1) as nat, k0);
    }
}

/// Peeling off the first term: Σ_{k ≤ m} f(k) = f(0) + Σ_{k < m} f(k + 1).
pub proof fn lemma_sum_shift(f: spec_fn(int) -> int, m: nat)
    ensures
        sum_to(f, m + 1) == f(0) + sum_to(|k: int| f(k + 1), m),
    decreases m,
{
    let g = |k: int| f(k + 1);
    if m > 0 {
        lemma_sum_shift(f, (m - 1) as nat);
        assert(sum_to(f, m) == f(0) + sum_to(g, (m - 1) as nat));
        assert(sum_to(g, m) == sum_to(g, (m - 1) as nat) + g(m - 1));
        assert(sum_to(f, m + 1) == sum_to(f, m) + f(m as int));
    } else {
        assert(sum_to(f, 1) == sum_to(f, 0) + f(0));
    }
}

/// Summing in reverse order: Σ_{k < m} f(m - 1 - k) = Σ_{k < m} f(k).
pub proof fn lemma_sum_reverse(f: spec_fn(int) -> int, m: nat)
    ensures
        sum_to(|k: int| f(m - 1 - k), m) == sum_to(f, m),
    decreases m,
{
    if m > 0 {
        let g = |k: int| f(m - 1 - k);
        let f1 = |k: int| f(k + 1);
        lemma_sum_reverse(f1, (m - 1) as nat);
        assert((|k: int| f1((m - 1) - 1 - k)) =~= g);
        lemma_sum_shift(f, (m - 1) as nat);
    }
}

/// Sums of functions that agree on [0, m) are equal.
pub proof fn lemma_sum_ext(f: spec_fn(int) -> int, g: spec_fn(int) -> int, m: nat)
    requires
        forall|k: int| 0 <= k < m ==> #[trigger] f(k) == g(k),
    ensures
        sum_to(f, m) == sum_to(g, m),
    decreases m,
{
    if m > 0 {
        lemma_sum_ext(f, g, (m - 1) as nat);
    }
}

/// Σ (f + g) = Σ f + Σ g.
pub proof fn lemma_sum_add(f: spec_fn(int) -> int, g: spec_fn(int) -> int, m: nat)
    ensures
        sum_to(|k: int| f(k) + g(k), m) == sum_to(f, m) + sum_to(g, m),
    decreases m,
{
    if m > 0 {
        lemma_sum_add(f, g, (m - 1) as nat);
    }
}

/// Σ c·f = c·Σ f.
pub proof fn lemma_sum_scale(c: int, f: spec_fn(int) -> int, m: nat)
    ensures
        sum_to(|k: int| c * f(k), m) == c * sum_to(f, m),
    decreases m,
{
    if m > 0 {
        lemma_sum_scale(c, f, (m - 1) as nat);
        let a = sum_to(f, (m - 1) as nat);
        let b = f(m - 1);
        assert(c * (a + b) == c * a + c * b) by (nonlinear_arith);
    }
}

/// Splitting a sum: Σ_{k < a+l} g(k) = Σ_{k < a} g(k) + Σ_{q < l} g(a + q).
pub proof fn lemma_sum_split(g: spec_fn(int) -> int, a: nat, l: nat)
    ensures
        sum_to(g, a + l) == sum_to(g, a) + sum_to(|q: int| g(a + q), l),
    decreases l,
{
    if l > 0 {
        lemma_sum_split(g, a, (l - 1) as nat);
        assert(sum_to(g, a + l) == sum_to(g, (a + l - 1) as nat) + g(a + l - 1));
    }
}

/// A sum over [0, m) of a function that vanishes outside [a, a + l) is the sum of its
/// values on that window.
pub proof fn lemma_sum_window(g: spec_fn(int) -> int, a: nat, l: nat, m: nat)
    requires
        a + l <= m,
        forall|k: int| 0 <= k < m && (k < a || k >= a + l) ==> #[trigger] g(k) == 0,
    ensures
        sum_to(g, m) == sum_to(|q: int| g(a + q), l),
{
    lemma_sum_zero(g, a);
    lemma_sum_split(g, a, l);
    let rest = (m - (a + l)) as nat;
    lemma_sum_split(g, a + l, rest);
    let tail = |q: int| g((a + l) + q);
    assert forall|q: int| 0 <= q < rest implies #[trigger] tail(q) == 0 by {
        assert(g((a + l) + q) == 0);
    }
    lemma_sum_zero(tail, rest);
}

/// Exchanging the order of a finite double sum.
pub proof fn lemma_sum_swap(f: spec_fn(int, int) -> int, m: nat, n: nat)
    ensures
        sum_to(|i: int| sum_to(|j: int| f(i, j), n), m) == sum_to(
            |j: int| sum_to(|i: int| f(i, j), m),
            n,
        ),
    decreases m,
{
    let cols = |j: int| sum_to(|i: int| f(i, j), m);
    if m == 0 {
        assert forall|j: int| 0 <= j < n implies #[trigger] cols(j) == 0 by {}
        lemma_sum_zero(cols, n);
    } else {
        lemma_sum_swap(f, (m - 1) as nat, n);
        let prev = |j: int| sum_to(|i: int| f(i, j), (m - 1) as nat);
        let last = |j: int| f(m - 1, j);
        assert forall|j: int| 0 <= j < n implies #[trigger] cols(j) == prev(j) + last(j) by {}
        lemma_sum_ext(cols, |j: int| prev(j) + last(j), n);
        lemma_sum_add(prev, last, n);
        let rows = |i: int| sum_to(|j: int| f(i, j), n);
        assert(sum_to(rows, m) == sum_to(rows, (m - 1) as nat) + rows(m - 1));
        assert(rows(m - 1) == sum_to(last, n)) by {
            assert((|j: int| f(m - 1, j)) =~= last);
        }
    }
}

/// Multiplying by the identity on the right leaves a matrix unchanged.
pub proof fn lemma_product_identity_right(a: spec_fn(int, int) -> int, d: nat, i: int, j: int)
    requires
        0 <= j < d,
    ensures
        product_entry(a, identity(), d, i, j) == a(i, j),
{
    let f = |k: int| a(i, k) * identity()(k, j);
    assert forall|k: int| 0 <= k < d && k != j implies #[trigger] f(k) == 0 by {}
    lemma_sum_single(f, d, j);
}

/// Multiplying by the identity on the left leaves a matrix unchanged.
pub proof fn lemma_product_identity_left(a: spec_fn(int, int) -> int, d: nat, i: int, j: int)
    requires
        0 <= i < d,
    ensures
        product_entry(identity(), a, d, i, j) == a(i, j),
{
    let f = |k: int| identity()(i, k) * a(k, j);
    assert forall|k: int| 0 <= k < d && k != i implies #[trigger] f(k) == 0 by {}
    lemma_sum_single(f, d, i);
}

/// The d×d identity matrix.
pub fn identity_matrix(d: usize) -> (m: Vec<Vec<i64>>)
    ensures
        has_entries(m@, d as nat, identity()),
{
    let mut m: Vec<Vec<i64>> = Vec::new();
    let mut i: usize = 0;
    while i < d
        invariant
            i <= d,
            m@.len() == i,
            forall|a: int| 0 <= a < i ==> (#[trigger] m@[a])@.len() == d,
            forall|a: int, b: int|
                0 <= a < i && 0 <= b < d ==> #[trigger] m@[a]@[b] == delta(a, b),
        decreases d - i,
    {
        let mut row: Vec<i64> = Vec::new();
        let mut j: usize = 0;
        while j < d
            invariant
                j <= d,
                i < d,
                row@.len() == j,
                forall|b: int| 0 <= b < j ==> #[trigger] row@[b] == delta(i as int, b),
            decreases d - j,
        {
            if i == j {
                row.push(1);
            } else {
                row.push(0);
            }
            j += 1;
        }
        m.push(row);
        i += 1;
    }
    m
}

} // verus!
