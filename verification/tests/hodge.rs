use lau_kahler_agents::hodge::HodgeDiamond;

#[test]
fn test_cp1_hodge_diamond() {
    let hd = HodgeDiamond::cp_n(1);
    assert_eq!(hd.get(0, 0), 1);
    assert_eq!(hd.get(1, 1), 1);
    assert_eq!(hd.get(0, 1), 0);
}

#[test]
fn test_cp2_hodge_diamond() {
    let hd = HodgeDiamond::cp_n(2);
    assert_eq!(hd.get(0, 0), 1);
    assert_eq!(hd.get(1, 1), 1);
    assert_eq!(hd.get(2, 2), 1);
}

#[test]
fn test_cp_n_symmetry() {
    let hd = HodgeDiamond::cp_n(3);
    assert!(hd.verify_symmetry());
}

#[test]
fn test_cp_n_serre_duality() {
    let hd = HodgeDiamond::cp_n(3);
    assert!(hd.verify_serre_duality());
}

#[test]
fn test_cp1_betti_numbers() {
    let hd = HodgeDiamond::cp_n(1);
    // For CP^1: h^{0,0}=1, h^{1,1}=1
    // b_0 = h^{0,0} = 1, b_1 = h^{1,0}+h^{0,1} = 0, b_2 = h^{1,1} = 1
    assert_eq!(hd.betti_number(0), 1);
    assert_eq!(hd.betti_number(1), 0);
    assert_eq!(hd.betti_number(2), 1);
}

#[test]
fn test_cy3_hodge_diamond() {
    let hd = HodgeDiamond::cy3(5, 10);
    assert_eq!(hd.get(0, 0), 1);
    assert_eq!(hd.get(1, 1), 5);
    assert_eq!(hd.get(2, 1), 10);
    assert_eq!(hd.get(3, 3), 1);
}

#[test]
fn test_cy3_symmetry() {
    let hd = HodgeDiamond::cy3(5, 10);
    assert!(hd.verify_symmetry());
}

#[test]
fn test_cy3_euler() {
    let hd = HodgeDiamond::cy3(5, 10);
    // χ = 2(h^{1,1} - h^{2,1}) = 2(5-10) = -10
    assert_eq!(hd.euler_characteristic(), -10);
}

#[test]
fn test_decomposition_cp2() {
    let hd = HodgeDiamond::cp_n(2);
    let d2 = hd.decomposition(2);
    // For CP^2: h^{2,0}=0, h^{1,1}=1, h^{0,2}=0
    assert!(d2.iter().any(|(p, q, h)| *p == 1 && *q == 1 && *h == 1));
}

fn to_json(hd: &HodgeDiamond) -> String {
    let mut obj = serde_json::Map::new();
    obj.insert("complex_dim".to_string(), serde_json::Value::from(hd.complex_dim));
    obj.insert("diamond".to_string(), serde_json::Value::from(hd.diamond.clone()));
    serde_json::to_string(&serde_json::Value::Object(obj)).unwrap()
}

fn from_json(json: &str) -> HodgeDiamond {
    let v: serde_json::Value = serde_json::from_str(json).unwrap();
    let complex_dim = v["complex_dim"].as_u64().unwrap() as usize;
    let diamond = v["diamond"]
        .as_array()
        .unwrap()
        .iter()
        .map(|row| row.as_array().unwrap().iter().map(|x| x.as_u64().unwrap() as usize).collect())
        .collect();
    HodgeDiamond { complex_dim, diamond }
}

#[test]
fn hodge_test_serialization() {
    let hd = HodgeDiamond::cp_n(2);
    let json = to_json(&hd);
    let hd2 = from_json(&json);
    assert_eq!(hd2.get(1, 1), 1);
}

#[test]
fn test_quintic_euler() {
    // Quintic CY3: h^{1,1} = 1, h^{2,1} = 101, χ = -200
    let hd = HodgeDiamond::cy3(1, 101);
    assert_eq!(hd.get(1, 1), 1);
    assert_eq!(hd.get(2, 1), 101);
    assert_eq!(hd.euler_characteristic(), -200);
    assert!(hd.verify_symmetry());
    assert!(hd.verify_serre_duality());
}

#[test]
fn test_cp_n_euler_is_n_plus_one() {
    for n in 0..6 {
        assert_eq!(HodgeDiamond::cp_n(n).euler_characteristic(), n as i64 + 1);
    }
}

#[test]
fn test_cp_n_betti_numbers() {
    let hd = HodgeDiamond::cp_n(3);
    let betti: Vec<usize> = (0..=8).map(|k| hd.betti_number(k)).collect();
    assert_eq!(betti, vec![1, 0, 1, 0, 1, 0, 1, 0, 0]);
}

#[test]
fn test_cy3_betti_numbers() {
    let hd = HodgeDiamond::cy3(5, 10);
    let betti: Vec<usize> = (0..=7).map(|k| hd.betti_number(k)).collect();
    assert_eq!(betti, vec![1, 0, 5, 22, 5, 0, 1, 0]);
}

#[test]
fn test_cy3_decomposition_of_h3() {
    let hd = HodgeDiamond::cy3(5, 10);
    let d3 = hd.decomposition(3);
    assert_eq!(d3, vec![(0, 3, 1), (1, 2, 10), (2, 1, 10), (3, 0, 1)]);
    let total: usize = d3.iter().map(|(_, _, h)| *h).sum();
    assert_eq!(total, hd.betti_number(3));
}

#[test]
fn test_decomposition_skips_zero_entries() {
    let hd = HodgeDiamond::cy3(0, 0);
    assert_eq!(hd.decomposition(2), vec![]);
    assert_eq!(hd.decomposition(3), vec![(0, 3, 1), (3, 0, 1)]);
}

#[test]
fn test_get_outside_the_table_is_zero() {
    let hd = HodgeDiamond::cp_n(2);
    assert_eq!(hd.get(3, 0), 0);
    assert_eq!(hd.get(0, 7), 0);
    let ragged = HodgeDiamond { complex_dim: 1, diamond: vec![vec![1], vec![0, 1]] };
    assert_eq!(ragged.get(0, 1), 0);
    assert_eq!(ragged.get(1, 1), 1);
}

#[test]
fn test_symmetry_failure_is_detected() {
    let hd = HodgeDiamond { complex_dim: 1, diamond: vec![vec![1, 2], vec![0, 1]] };
    assert!(!hd.verify_symmetry());
    // h^{0,1} = 2 but h^{1,0} = 0, which also breaks h^{p,q} = h^{n-p,n-q}
    assert!(!hd.verify_serre_duality());
}

#[test]
fn test_serre_duality_failure_is_detected() {
    // Symmetric, but h^{0,0} != h^{1,1}
    let hd = HodgeDiamond { complex_dim: 1, diamond: vec![vec![1, 0], vec![0, 2]] };
    assert!(hd.verify_symmetry());
    assert!(!hd.verify_serre_duality());
}

#[test]
fn test_betti_number_of_custom_diamond() {
    // A complex torus of dimension 1: h^{0,0} = h^{1,0} = h^{0,1} = h^{1,1} = 1
    let hd = HodgeDiamond { complex_dim: 1, diamond: vec![vec![1, 1], vec![1, 1]] };
    assert_eq!(hd.betti_number(0), 1);
    assert_eq!(hd.betti_number(1), 2);
    assert_eq!(hd.betti_number(2), 1);
    assert_eq!(hd.betti_number(3), 0);
    assert_eq!(hd.euler_characteristic(), 0);
}

#[test]
fn test_poincare_duality_of_betti_numbers() {
    // A Serre-dual but asymmetric diamond still has b_k = b_{2n-k}.
    let hd = HodgeDiamond { complex_dim: 2, diamond: vec![vec![1, 2, 0], vec![0, 3, 0], vec![0, 2, 1]] };
    assert!(hd.verify_serre_duality());
    assert!(!hd.verify_symmetry());
    for k in 0..=4 {
        assert_eq!(hd.betti_number(k), hd.betti_number(4 - k));
    }
}

#[test]
fn test_euler_characteristic_casts_betti_numbers_to_i64() {
    // b_1 = usize::MAX, which is -1 as an i64, so χ = 0 - (-1) + 0 = 1.
    let hd = HodgeDiamond { complex_dim: 1, diamond: vec![vec![0, usize::MAX], vec![0, 0]] };
    assert_eq!(hd.betti_number(1), usize::MAX);
    assert_eq!(hd.euler_characteristic(), 1);
}

#[test]
fn test_decomposition_lists_every_nonzero_piece() {
    let hd = HodgeDiamond { complex_dim: 2, diamond: vec![vec![1, 2, 3], vec![4, 5, 6], vec![7, 8, 9]] };
    assert_eq!(hd.decomposition(2), vec![(0, 2, 3), (1, 1, 5), (2, 0, 7)]);
    assert_eq!(hd.decomposition(3), vec![(1, 2, 6), (2, 1, 8)]);
}
