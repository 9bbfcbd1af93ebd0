use absagl::groups::dihedral::{DihedralElement, DihedralError};
use absagl::groups::{CanonicalRepr, CheckedOp, GroupElement};
use absagl::error::AbsaglError;

#[test]
fn test_dihedral_element_creation() {
    let element = DihedralElement::try_new(1, true, 4).unwrap();
    assert_eq!(element.rotation(), 1);
    assert!(element.is_reflection());
    assert_eq!(element.n(), 4);
}

#[test]
fn test_dihedral_element_identity() {
    let identity = DihedralElement::identity(5);
    assert_eq!(identity.rotation(), 0);
    assert!(!identity.is_reflection());
    assert_eq!(identity.n(), 5);
}

#[test]
fn test_dihedral_element_order() {
    let element = DihedralElement::try_new(2, false, 4).unwrap();
    assert_eq!(element.order(), 2); // 4 / gcd(4, 2) = 2

    let reflection = DihedralElement::try_new(1, true, 4).unwrap();
    assert_eq!(reflection.order(), 2); // Reflections always have order 2

    let identity = DihedralElement::identity(4);
    assert_eq!(identity.order(), 1); // Identity has order 1
}

#[test]
fn test_dihedral_element_inverse() {
    let element = DihedralElement::try_new(1, false, 4).unwrap();
    let inverse = element.inverse();
    assert_eq!(inverse.rotation(), 3); // 4 - 1 = 3
    assert!(!inverse.is_reflection()); // Inverse of a rotation is itself

    let reflection = DihedralElement::try_new(2, true, 4).unwrap();
    let reflection_inverse = reflection.inverse();
    assert_eq!(reflection_inverse.rotation(), 2); // Reflection inverse is itself
    assert!(reflection_inverse.is_reflection());
}

#[test]
fn test_dihedral_element_op() {
    let a = DihedralElement::try_new(1, false, 4).unwrap();
    let b = DihedralElement::try_new(2, true, 4).unwrap();
    let c = a.op(&b);
    assert_eq!(c.rotation(), 3);
    assert!(c.is_reflection());
}

#[test]
fn dihedral_test_to_canonical_bytes() {
    let d1 = DihedralElement::try_new(1, false, 9).unwrap();
    let expected: Vec<u8> = vec![0, 0, 0, 0, 0, 0, 0, 1, 0, 0, 0, 0, 0, 0, 0, 0, 9];
    assert_eq!(d1.to_canonical_bytes(), expected);
}

#[test]
fn test_dihedral_checked_op() {
    let a = DihedralElement::try_new(1, false, 4).unwrap();
    let b = DihedralElement::try_new(2, true, 4).unwrap();
    let result = a.checked_op(&b);
    assert!(result.is_ok());
    let c = result.unwrap();
    assert_eq!(c.rotation(), 3);
    assert!(c.is_reflection());

    // Test size mismatch
    let d = DihedralElement::try_new(1, false, 5).unwrap();
    let result = a.checked_op(&d);
    match result {
        Err(DihedralError::SizeNotMatch) => assert!(true),
        _ => panic!("Expected size mismatch error"),
    }
}

#[test]
fn test_dihedral_try_new_zero_size() {
    let result = DihedralElement::try_new(1, false, 0);
    match result {
        Err(AbsaglError::Dihedral(DihedralError::SizeCannotBeZero)) => (),
        _ => panic!("Expected SizeCannotBeZero error"),
    }
}

#[test]
fn test_dihedral_triangle_group_order() {
    // The dihedral group on a triangle has 3 rotations and 3 reflections.
    let group = absagl::groups::GroupGenerators::generate_dihedral_group(3)
        .expect("should generate dihedral group");
    assert_eq!(group.order(), 6);
}
