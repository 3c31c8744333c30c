use lau_kahler_agents::complex::{real_dim, standard_j_matrix};
use lau_kahler_agents::matrix::identity_matrix;

fn mul(a: &Vec<Vec<i64>>, b: &Vec<Vec<i64>>) -> Vec<Vec<i64>> {
    let d = a.len();
    (0..d).map(|i| (0..d).map(|j| (0..d).map(|k| a[i][k] * b[k][j]).sum()).collect()).collect()
}

fn transpose(a: &Vec<Vec<i64>>) -> Vec<Vec<i64>> {
    let d = a.len();
    (0..d).map(|i| (0..d).map(|j| a[j][i]).collect()).collect()
}

fn neg(a: &Vec<Vec<i64>>) -> Vec<Vec<i64>> {
    a.iter().map(|row| row.iter().map(|x| -x).collect()).collect()
}

/// J² = -Id, checked exactly on the integer entries.
fn squares_to_minus_identity(j: &Vec<Vec<i64>>) -> bool {
    mul(j, j) == neg(&identity_matrix(j.len()))
}

#[test]
fn test_standard_complex_structure_c1() {
    let j = standard_j_matrix(1);
    assert!(squares_to_minus_identity(&j));
    assert_eq!(real_dim(1), 2);
}

#[test]
fn test_standard_complex_structure_c2() {
    let j = standard_j_matrix(2);
    assert!(squares_to_minus_identity(&j));
    assert_eq!(real_dim(2), 4);
}

#[test]
fn test_standard_complex_structure_c3() {
    let j = standard_j_matrix(3);
    assert!(squares_to_minus_identity(&j));
    assert_eq!(real_dim(3), 6);
}

#[test]
fn test_j_squared_is_neg_identity() {
    let j = standard_j_matrix(4);
    let n = real_dim(4);
    let j2 = mul(&j, &j);
    let neg_id = neg(&identity_matrix(n));
    assert_eq!(j2, neg_id);
}

#[test]
fn test_standard_j_is_orthogonal() {
    let j = standard_j_matrix(3);
    assert_eq!(mul(&transpose(&j), &j), identity_matrix(6));
}

#[test]
fn test_standard_j_compatible_with_identity_metric() {
    let j = standard_j_matrix(2);
    let g = identity_matrix(4);
    assert_eq!(mul(&mul(&transpose(&j), &g), &j), g);
}

#[test]
fn test_real_dim() {
    assert_eq!(real_dim(3), 6);
}

#[test]
fn test_standard_j_c1_entries() {
    assert_eq!(standard_j_matrix(1), vec![vec![0, -1], vec![1, 0]]);
}

#[test]
fn test_standard_j_c2_entries() {
    assert_eq!(
        standard_j_matrix(2),
        vec![vec![0, 0, -1, 0], vec![0, 0, 0, -1], vec![1, 0, 0, 0], vec![0, 1, 0, 0]]
    );
}

#[test]
fn test_standard_j_is_antisymmetric() {
    let j = standard_j_matrix(3);
    assert_eq!(transpose(&j), neg(&j));
}

#[test]
fn test_standard_j_c0_is_empty() {
    assert!(standard_j_matrix(0).is_empty());
    assert_eq!(real_dim(0), 0);
}

#[test]
fn test_identity_matrix() {
    assert_eq!(identity_matrix(2), vec![vec![1, 0], vec![0, 1]]);
}
