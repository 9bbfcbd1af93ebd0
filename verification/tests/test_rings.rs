use absagl::error::AbsaglError;
use absagl::groups::modulo::ModuloError;
use absagl::groups::GroupError;
use absagl::rings::modulo::ModuloElement;
use absagl::rings::{CheckedRingOp, FiniteRing, Ring, RingElement, RingError, RingGenerators};

#[test]
fn test_ring_creation() {
    let elements = ModuloElement::generate_modulo_group(5);
    let ring = FiniteRing::try_new(elements).unwrap();
    assert_eq!(ring.zero().value(), 0);
    assert!(ring.one().is_some());
    assert_eq!(ring.one().unwrap().value(), 1);
}

#[test]
fn test_ring_creation_with_invalid_zero() {
    let elements = ModuloElement::generate_modulo_group(5);
    let ring = FiniteRing::try_new_with_identities(elements, ModuloElement::try_new(1, 5).unwrap(), None);
    assert!(ring.is_err());
    match ring {
        Err(AbsaglError::Ring(RingError::GroupError(GroupError::NotFound))) => (),
        _ => panic!("Expected NotFound error for invalid zero"),
    }
}

#[test]
fn test_ring_creation_with_invalid_one() {
    let elements = ModuloElement::generate_modulo_group(5);
    let ring = FiniteRing::try_new_with_identities(
        elements,
        ModuloElement::try_new(0, 5).unwrap(),
        Some(ModuloElement::try_new(2, 5).unwrap()),
    );
    assert!(ring.is_err());
    match ring {
        Err(AbsaglError::Ring(RingError::GroupError(GroupError::NotFound))) => (),
        _ => panic!("Expected NotFound error for invalid one"),
    }
}

#[test]
fn test_ring_creation_with_generator() {
    let ring = RingGenerators::zn(5).unwrap();
    assert_eq!(ring.order(), 5);
    assert_eq!(ring.zero().value(), 0);
    assert!(ring.one().is_some());
    assert_eq!(ring.one().unwrap().value(), 1);
    assert!(ring.is_commutative());
}

#[test]
fn test_modulo_element_creation_unchecked() {
    let elem = ModuloElement::new(5, 12);
    assert_eq!(elem.value(), 5);
    assert_eq!(elem.modulus(), 12);
}

#[test]
fn test_modulo_element_creation_checked() {
    let elem = ModuloElement::try_new(5, 12);
    assert!(elem.is_ok());
    let elem = ModuloElement::try_new(5, 0);
    assert!(elem.is_err());
    match elem {
        Err(AbsaglError::Modulo(ModuloError::ZeroModulus)) => (),
        _ => panic!("Expected ZeroModulus error"),
    }
}

#[test]
fn test_modulo_element_addition() {
    let elem1 = ModuloElement::new(5, 12);
    let elem2 = ModuloElement::new(7, 12);
    let result = elem1.add(&elem2);
    assert_eq!(result.value(), 0); // (5 + 7) % 12 = 0
}

#[test]
fn test_modulo_element_negation() {
    let elem = ModuloElement::new(5, 12);
    let negated = elem.negate();
    assert_eq!(negated.value(), 7); // (12 - 5) % 12 = 7
}

#[test]
fn test_modulo_element_multiplication() {
    let elem1 = ModuloElement::new(5, 12);
    let elem2 = ModuloElement::new(3, 12);
    let result = elem1.mul(&elem2);
    assert_eq!(result.value(), 3); // (5 * 3) % 12 = 3
}

#[test]
fn test_modulo_element_checked_addition() {
    let elem1 = ModuloElement::new(5, 12);
    let elem2 = ModuloElement::new(7, 12);
    let result = elem1.checked_add(&elem2);
    assert!(result.is_ok());
    assert_eq!(result.unwrap().value(), 0); // (5 + 7) % 12 = 0

    let elem3 = ModuloElement::new(5, 12);
    let elem4 = ModuloElement::new(7, 13); // Different modulus
    let result = elem3.checked_add(&elem4);
    assert!(result.is_err());
    match result {
        Err(ModuloError::DifferentModuli) => (),
        _ => panic!("Expected DifferentModuli error"),
    }
}

#[test]
fn test_modulo_element_checked_multiplication() {
    let elem1 = ModuloElement::new(5, 12);
    let elem2 = ModuloElement::new(3, 12);
    let result = elem1.checked_mul(&elem2);
    assert!(result.is_ok());
    assert_eq!(result.unwrap().value(), 3); // (5 * 3) % 12 = 3

    let elem3 = ModuloElement::new(5, 12);
    let elem4 = ModuloElement::new(7, 13); // Different modulus
    let result = elem3.checked_mul(&elem4);
    assert!(result.is_err());
    match result {
        Err(ModuloError::DifferentModuli) => (),
        _ => panic!("Expected DifferentModuli error"),
    }
}

#[test]
fn test_modulo_element_generate_group() {
    let group = ModuloElement::generate_modulo_group(5);
    assert_eq!(group.len(), 5);
    assert_eq!(group[0].value(), 0);
    assert_eq!(group[1].value(), 1);
    assert_eq!(group[2].value(), 2);
    assert_eq!(group[3].value(), 3);
    assert_eq!(group[4].value(), 4);
}

#[test]
fn test_zn_zero_modulus_rejected() {
    match RingGenerators::zn(0) {
        Err(AbsaglError::Modulo(ModuloError::ZeroModulus)) => (),
        other => panic!("expected ZeroModulus, got {:?}", other),
    }
}

#[test]
fn test_modulo_element_display() {
    let elem = ModuloElement::new(5, 12);
    assert_eq!(elem.to_display_string(), "5 (mod 12)");
}
