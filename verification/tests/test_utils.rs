use absagl::utils;

#[test]
fn test_gcd() {
    let result = utils::gcd(2024 as usize, 748 as usize);
    assert_eq!(result, 44 as usize)
}

#[test]
fn test_modular_inverse() {
    let result = utils::modular_inverse(3, 11);
    assert_eq!(result, Some(4)); // 3 * 4 % 11 == 1
}

#[test]
fn test_prime_factorization() {
    let result = utils::prime_factorization(12);
    assert_eq!(result, vec![(2, 2), (3, 1)]);
}

#[test]
fn test_lcm_exact() {
    assert_eq!(utils::lcm(4, 6), 12);
    assert_eq!(utils::lcm(0, 5), 0);
    assert_eq!(utils::lcm(7, 7), 7);
}

#[test]
fn test_extended_gcd_bezout() {
    let (g, u, v) = utils::extended_gcd(240, 46);
    assert_eq!(g, 2);
    assert_eq!(240 * u + 46 * v, 2);
}

#[test]
fn test_modular_inverse_none() {
    assert_eq!(utils::modular_inverse(4, 8), None);
}

#[test]
fn test_prime_factorization_edge() {
    assert_eq!(utils::prime_factorization(1), vec![]);
    assert_eq!(utils::prime_factorization(2), vec![(2, 1)]);
    assert_eq!(utils::prime_factorization(97), vec![(97, 1)]);
    assert_eq!(utils::prime_factorization(360), vec![(2, 3), (3, 2), (5, 1)]);
}

#[test]
fn test_is_mapping_valid_cases() {
    assert!(utils::is_mapping_valid(&vec![0, 1, 2]));
    assert!(utils::is_mapping_valid(&vec![]));
    assert!(!utils::is_mapping_valid(&vec![0, 0, 2]));
    assert!(!utils::is_mapping_valid(&vec![0, 3]));
}
