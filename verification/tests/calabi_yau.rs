use lau_kahler_agents::calabi_yau::{euler_characteristic_cy3, hodge_numbers_cy3, su_n_holonomy_dimension};
use lau_kahler_agents::hodge::HodgeDiamond;

#[test]
fn test_su_n_holonomy_dim() {
    // SU(3) has dimension 8
    assert_eq!(su_n_holonomy_dimension(3), 8);
}

#[test]
fn test_hodge_numbers() {
    let (h11, h21) = hodge_numbers_cy3(5, 10);
    assert_eq!(h11, 5);
    assert_eq!(h21, 10);
}

#[test]
fn test_euler_characteristic() {
    let chi = euler_characteristic_cy3(5, 10);
    assert_eq!(chi, -10);
}

#[test]
fn test_su_n_holonomy_small_dims() {
    assert_eq!(su_n_holonomy_dimension(1), 0);
    assert_eq!(su_n_holonomy_dimension(2), 3);
    assert_eq!(su_n_holonomy_dimension(4), 15);
}

#[test]
fn test_euler_characteristic_quintic_and_mirror() {
    assert_eq!(euler_characteristic_cy3(1, 101), -200);
    assert_eq!(euler_characteristic_cy3(101, 1), 200);
    assert_eq!(euler_characteristic_cy3(7, 7), 0);
}

#[test]
fn test_euler_characteristic_casts_to_i64() {
    // usize::MAX is -1 as an i64, so both Hodge numbers read as -1
    assert_eq!(euler_characteristic_cy3(usize::MAX, usize::MAX), 0);
}

#[test]
fn test_formula_matches_diamond() {
    for (h11, h21) in [(5, 10), (1, 101), (3, 3), (0, 2)] {
        let hd = HodgeDiamond::cy3(h11, h21);
        assert_eq!(hd.euler_characteristic(), euler_characteristic_cy3(h11, h21));
    }
}
