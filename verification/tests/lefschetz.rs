use lau_kahler_agents::lefschetz::lefschetz_decomposition_betti;

#[test]
fn test_decomposition_sums_primitive_dimensions() {
    // n = 3, k = 2: r ranges over 0..=min(1, 1), degrees 2 and 0
    let dims = vec![4, 100, 3];
    assert_eq!(lefschetz_decomposition_betti(3, 2, &dims, |_| 999), 7);
}

#[test]
fn test_decomposition_uses_every_r_up_to_half_k() {
    // n = 3, k = 3: r ranges over 0..=1, degrees 3 and 1 (H^3 = P^3 ⊕ L P^1)
    let dims = vec![0, 5, 0, 1];
    assert_eq!(lefschetz_decomposition_betti(3, 3, &dims, |_| 999), 6);
}

#[test]
fn test_decomposition_middle_degree() {
    // n = 2, k = 2: r ranges over 0..=1, degrees 2 and 0
    let dims = vec![4, 100, 3];
    assert_eq!(lefschetz_decomposition_betti(2, 2, &dims, |_| 999), 7);
}

#[test]
fn test_decomposition_falls_back_when_zero() {
    let dims = vec![0, 0, 0];
    assert_eq!(lefschetz_decomposition_betti(3, 2, &dims, |k| k + 40), 42);
}

#[test]
fn test_decomposition_degree_zero() {
    let dims = vec![5];
    assert_eq!(lefschetz_decomposition_betti(1, 0, &dims, |_| 0), 5);
}
