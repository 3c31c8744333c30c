# lau_kahler_agents

Kähler geometry — where Riemannian, symplectic and complex geometry unify — with
its integer side verified in Verus.

`src/` is the verified library:

- `hodge` — Hodge diamonds `h^{p,q}`: the diamonds of `CPⁿ` and of Calabi–Yau
  3-folds, Betti numbers `b_k = Σ_{p+q=k} h^{p,q}`, Hodge symmetry and Serre duality
  checks, the Hodge decomposition of `Hᵏ`, and the Euler characteristic. Proof
  functions state the decomposition sums, the symmetries and Euler characteristics
  of `CPⁿ` and of Calabi–Yau 3-folds, and Poincaré duality `b_k = b_{2n-k}`.
- `calabi_yau` — `dim SU(n) = n² - 1`, Calabi–Yau 3-fold Hodge numbers and
  `χ = 2(h^{1,1} - h^{2,1})`, tied to the Hodge diamond.
- `lefschetz` — the Betti number from the Lefschetz decomposition
  `Hᵏ = ⊕_{r ≤ k/2} L^r P^{k-2r}`.
- `kahler` — the closedness check dω = 0.
- `matrix`, `complex`, `identities` — the exact entries of the standard complex
  structure `J` and of the operators `L, Λ, ∂, ∂̄` on `ℂⁿ`, with proofs of
  `J² = -Id`, `JᵀJ = Id`, `Jᵀ = -J`, `Λ = Lᵀ = -L`, `LΛ = ΛL = Id`,
  `[L, ∂] = [L, ∂̄] = 0`.

`app/` holds the real and complex (`f64`) nalgebra structures — `ComplexStructure`,
`HermitianForm`, `KahlerStructure`, `KahlerPotential`, `RicciForm`, `CalabiYau`,
`LefschetzOperator`, `KahlerIdentities` — with their serde derives. They take their
integer parts from the library.
