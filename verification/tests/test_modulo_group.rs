use absagl::error::AbsaglError;
use absagl::groups::modulo::{Modulo, ModuloError};
use absagl::groups::{Additive, CanonicalRepr, CheckedOp, GroupElement, Multiplicative};

#[test]
fn test_modulo_add_create_fail_zero_modulus() {
    let result = Modulo::<Additive>::new(1, 0);
    match result {
        Err(AbsaglError::Modulo(ModuloError::ZeroModulus)) => {},
        _ => panic!("Expected Err(AbsaglError::Modulo(ModuloError::ZeroModulus)), but got {:?}", result),
    }
}

#[test]
fn test_modulo_mul_create_fail_not_member() {
    let result = Modulo::<Multiplicative>::new(2, 4);
    match result {
        Err(AbsaglError::Modulo(ModuloError::ElementNotInGroup { value: 2, modulus: 4 })) => {},
        _ => panic!(
            "Expected Err(AbsaglError::Modulo(ModuloError::ElementNotInGroup)), but got {:?}",
            result
        ),
    }
}

#[test]
fn test_modulo_op_add() {
    let a = Modulo::<Additive>::new(1, 5).unwrap();
    let b = Modulo::<Additive>::new(3, 5).unwrap();
    let c = a.op(&b);
    assert_eq!(c.value(), 4);
}

#[test]
fn test_modulo_op_mul() {
    let a = Modulo::<Multiplicative>::new(2, 5).unwrap();
    let b = Modulo::<Multiplicative>::new(3, 5).unwrap();
    let c = a.op(&b);
    assert_eq!(c.value(), 1);
}

#[test]
fn test_modulo_identity_add() {
    let id = Modulo::<Additive>::identity(5);
    assert_eq!(id.value(), 0);
}

#[test]
fn test_modulo_identity_mul() {
    let id = Modulo::<Multiplicative>::identity(5);
    assert_eq!(id.value(), 1);
}

#[test]
fn test_modulo_inverse_add() {
    let a = Modulo::<Additive>::new(3, 5).unwrap();
    let inverse = a.inverse();
    assert_eq!(inverse.value(), 2);
}

#[test]
fn test_modulo_inverse_mul() {
    let a = Modulo::<Multiplicative>::new(17, 46).unwrap();
    let inverse = a.inverse();
    assert_eq!(inverse.value(), 19);
}

#[test]
fn test_modulo_order_add() {
    let a = Modulo::<Additive>::new(3, 5).unwrap();
    assert_eq!(a.order(), 5);
}

#[test]
fn test_modulo_order_add_identity() {
    let a = Modulo::<Additive>::new(0, 5).unwrap();
    // The order of the identity element should be 1
    assert_eq!(a.order(), 1);
}

#[test]
fn test_modulo_order_mul() {
    let a = Modulo::<Multiplicative>::new(3, 7).unwrap();
    assert_eq!(a.order(), 6);
}

#[test]
fn test_modulo_order_mul_identity() {
    let a = Modulo::<Multiplicative>::new(1, 7).unwrap();
    // The order of the identity element should be 1
    assert_eq!(a.order(), 1);
}

#[test]
fn test_modulo_checked_op_size_mismatch_add() {
    let a = Modulo::<Additive>::new(1, 5).unwrap();
    let b = Modulo::<Additive>::new(2, 6).unwrap();
    let result = a.checked_op(&b);
    match result {
        Err(ModuloError::SizeNotMatch) => {},
        _ => panic!("Expected Err(ModuloError::SizeNotMatch), but got {:?}", result),
    }
}

#[test]
fn test_go_canonical_bytes() {
    let a = Modulo::<Additive>::new(2, 5).expect("should create element");
    let b: Vec<u8> = vec![0, 0, 0, 0, 0, 0, 0, 2, 0, 0, 0, 0, 0, 0, 0, 5];
    assert_eq!(a.to_canonical_bytes(), b);
}

#[test]
fn test_modulo_mul_inverse_round_trip() {
    // x * x^-1 is the multiplicative identity.
    let a = Modulo::<Multiplicative>::new(5, 7).unwrap();
    let product = a.op(&a.inverse());
    assert_eq!(product.value(), 1);
}
