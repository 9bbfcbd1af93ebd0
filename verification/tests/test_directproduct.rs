use absagl::groups::directproduct::{DirectProductElement, DirectProductError};
use absagl::groups::modulo::{Modulo, ModuloError};
use absagl::groups::{Additive, GroupElement};

#[test]
fn test_direct_product_element_op() {
    let a = DirectProductElement {
        components: vec![
            Modulo::<Additive>::try_new(1, 3).unwrap(),
            Modulo::<Additive>::try_new(2, 5).unwrap(),
        ],
    };
    let b = DirectProductElement {
        components: vec![
            Modulo::<Additive>::try_new(2, 3).unwrap(),
            Modulo::<Additive>::try_new(3, 5).unwrap(),
        ],
    };
    let c = a.op(&b);

    assert_eq!(c.components[0].value(), 0); // (1 + 2) % 3
    assert_eq!(c.components[1].value(), 0); // (2 + 3) % 5
}

#[test]
fn test_direct_product_element_inverse() {
    let a = DirectProductElement {
        components: vec![
            Modulo::<Additive>::try_new(1, 3).unwrap(),
            Modulo::<Additive>::try_new(2, 5).unwrap(),
        ],
    };
    let inverse = a.inverse();

    assert_eq!(inverse.components[0].value(), 2); // (3 - 1) % 3
    assert_eq!(inverse.components[1].value(), 3); // (5 - 2) % 5
}

#[test]
fn test_direct_product_element_checked_op() {
    let a = DirectProductElement {
        components: vec![
            Modulo::<Additive>::try_new(1, 3).unwrap(),
            Modulo::<Additive>::try_new(2, 5).unwrap(),
        ],
    };
    let b = DirectProductElement {
        components: vec![
            Modulo::<Additive>::try_new(2, 3).unwrap(),
            Modulo::<Additive>::try_new(3, 5).unwrap(),
        ],
    };
    let c = a.checked_op(&b).expect("should succeed");

    assert_eq!(c.components[0].value(), 0); // (1 + 2) % 3
    assert_eq!(c.components[1].value(), 0); // (2 + 3) % 5
}

#[test]
fn test_direct_product_element_different_component_count() {
    let a = DirectProductElement {
        components: vec![Modulo::<Additive>::try_new(1, 3).unwrap()],
    };
    let b = DirectProductElement {
        components: vec![
            Modulo::<Additive>::try_new(2, 5).unwrap(),
            Modulo::<Additive>::try_new(3, 7).unwrap(),
        ],
    };

    let result = a.checked_op(&b);
    assert!(result.is_err());
    match result {
        Err(DirectProductError::DifferentComponentCount) => (),
        _ => panic!("Expected DifferentComponentCount error"),
    }
}

#[test]
fn test_direct_product_element_op_with_different_moduli() {
    let a = DirectProductElement {
        components: vec![
            Modulo::<Additive>::try_new(1, 3).unwrap(),
            Modulo::<Additive>::try_new(2, 5).unwrap(),
        ],
    };
    let b = DirectProductElement {
        components: vec![
            Modulo::<Additive>::try_new(2, 4).unwrap(),
            Modulo::<Additive>::try_new(3, 6).unwrap(),
        ],
    };

    let result = a.checked_op(&b);
    assert!(result.is_err());
    match result {
        Err(DirectProductError::Modulo(ModuloError::DifferentModuli)) => (),
        _ => panic!("Expected DifferentModuli error"),
    }
}

#[test]
fn test_direct_product_group_from_decomposition() {
    // The decomposition of Z6 yields the factors Z2 and Z3.
    let group = absagl::groups::GroupGenerators::generate_modulo_group_add(6).unwrap();
    let decomposition = group.abelian_decomposition().unwrap();
    let product = absagl::groups::DirectProductGroup::from_decomposition(&decomposition).unwrap();
    assert_eq!(product.factors.len(), 2);
    assert_eq!(product.factors[0].order(), 2);
    assert_eq!(product.factors[1].order(), 3);
    let identity = product.identity();
    assert_eq!(identity.components.len(), 2);
    assert_eq!(identity.components[0].value(), 0);
    assert_eq!(identity.components[1].value(), 0);
}
