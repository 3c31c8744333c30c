//! Kähler geometry: the integer side of the theory.
//!
//! A Kähler manifold carries three simultaneous structures: a Riemannian metric `g`,
//! a symplectic form `ω`, and a complex structure `J`, satisfying the compatibility
//! condition `g(u, v) = ω(u, Jv)`. This crate holds the parts of that theory whose
//! values are integers: Hodge diamonds and Betti numbers, the Calabi–Yau numerical
//! invariants, the Lefschetz decomposition count, and the exact entries of the
//! standard structures on `ℂⁿ` together with the algebraic identities they satisfy.

pub mod matrix;
pub mod complex;
pub mod identities;
pub mod kahler;
pub mod hodge;
pub mod calabi_yau;
pub mod lefschetz;
