use lau_kahler_agents::identities::{verify_laplacian_equality, StandardOperators};

fn mul(a: &Vec<Vec<i64>>, b: &Vec<Vec<i64>>) -> Vec<Vec<i64>> {
    let d = a.len();
    (0..d).map(|i| (0..d).map(|j| (0..d).map(|k| a[i][k] * b[k][j]).sum()).collect()).collect()
}

fn commutator(a: &Vec<Vec<i64>>, b: &Vec<Vec<i64>>) -> Vec<Vec<i64>> {
    let ab = mul(a, b);
    let ba = mul(b, a);
    ab.iter().zip(ba.iter()).map(|(r, s)| r.iter().zip(s.iter()).map(|(x, y)| x - y).collect()).collect()
}

fn is_zero(a: &Vec<Vec<i64>>) -> bool {
    a.iter().all(|row| row.iter().all(|x| *x == 0))
}

#[test]
fn test_standard_identities_creation() {
    let kid = StandardOperators::standard(2);
    assert_eq!(kid.complex_dim, 2);
}

#[test]
fn test_l_del_commutes() {
    let kid = StandardOperators::standard(2);
    assert!(is_zero(&commutator(&kid.l_op, &kid.del_op)));
}

#[test]
fn test_l_delbar_commutes() {
    let kid = StandardOperators::standard(2);
    assert!(is_zero(&commutator(&kid.l_op, &kid.delbar_op)));
}

#[test]
fn test_sl2_triple() {
    let kid = StandardOperators::standard(2);
    let h = commutator(&kid.l_op, &kid.lambda_op);
    assert_eq!(kid.l_op.len(), 4);
    assert_eq!(kid.lambda_op.len(), 4);
    assert_eq!(h.len(), 4);
}

fn transpose(a: &Vec<Vec<i64>>) -> Vec<Vec<i64>> {
    let d = a.len();
    (0..d).map(|i| (0..d).map(|j| a[j][i]).collect()).collect()
}

fn neg(a: &Vec<Vec<i64>>) -> Vec<Vec<i64>> {
    a.iter().map(|row| row.iter().map(|x| -x).collect()).collect()
}

fn identity(d: usize) -> Vec<Vec<i64>> {
    (0..d).map(|i| (0..d).map(|j| if i == j { 1 } else { 0 }).collect()).collect()
}

#[test]
fn test_standard_lambda_is_adjoint_of_l() {
    for n in 0..5 {
        let kid = StandardOperators::standard(n);
        assert_eq!(kid.lambda_op, transpose(&kid.l_op));
        assert_eq!(kid.lambda_op, neg(&kid.l_op));
    }
}

#[test]
fn test_standard_lambda_entries() {
    let kid = StandardOperators::standard(1);
    // Λ = Jᵀ with J = [[0, -1], [1, 0]]
    assert_eq!(kid.lambda_op, vec![vec![0, 1], vec![-1, 0]]);
    assert_eq!(kid.del_op, vec![vec![1, 0], vec![0, 1]]);
    assert_eq!(kid.delbar_op, vec![vec![1, 0], vec![0, 1]]);
}

#[test]
fn test_standard_lambda_inverts_l() {
    let kid = StandardOperators::standard(2);
    assert_eq!(mul(&kid.l_op, &kid.lambda_op), identity(4));
    assert_eq!(mul(&kid.lambda_op, &kid.l_op), identity(4));
}

#[test]
fn test_laplacian_equality() {
    assert!(verify_laplacian_equality());
}

#[test]
fn test_standard_l_lambda_commute() {
    let kid = StandardOperators::standard(3);
    assert!(is_zero(&commutator(&kid.l_op, &kid.lambda_op)));
    assert!(is_zero(&commutator(&kid.lambda_op, &kid.del_op)));
}
