use core::marker::PhantomData;
use absagl::error::AbsaglError;
use absagl::groups::modulo::{Modulo, ModuloError};
use absagl::groups::permutation::Permutation;
use absagl::groups::{Additive, CanonicalRepr, CheckedOp, GroupElement, GroupError, Multiplicative};
use absagl::groups::{FiniteGroup, GroupGenerators};

#[test]
fn test_is_closed_true() {
    let a = Modulo::<Additive>::new(0, 3).expect("Failed to create Modulo element");
    let b = Modulo::<Additive>::new(1, 3).expect("Failed to create Modulo element");
    let c = Modulo::<Additive>::new(2, 3).expect("Failed to create Modulo element");

    let group = FiniteGroup::new(vec![a, b, c]);

    assert!(group.is_closed());
}

#[test]
fn test_is_closed_false() {
    let a = Modulo::<Additive>::new(0, 3).expect("Failed to create Modulo element");
    let b = Modulo::<Additive>::new(1, 3).expect("Failed to create Modulo element");

    let group = FiniteGroup::new(vec![a, b]);
    assert!(!group.is_closed());
}

#[test]
fn test_is_abelian_true() {
    let a = Modulo::<Additive>::new(0, 3).expect("Failed to create Modulo element");
    let b = Modulo::<Additive>::new(1, 3).expect("Failed to create Modulo element");
    let c = Modulo::<Additive>::new(2, 3).expect("Failed to create Modulo element");

    let group = FiniteGroup::new(vec![a, b, c]);

    assert!(group.is_abelian());
}

#[test]
fn test_is_abelian_false() {
    let s3 = GroupGenerators::generate_permutation_group(3).expect("Failed to generate S3 group");
    assert!(!s3.is_abelian());
}

#[test]
fn groups_test_is_closed_true() {
    let a = Modulo::<Additive>::try_new(0, 3).expect("Failed to create Modulo element");
    let b = Modulo::<Additive>::try_new(1, 3).expect("Failed to create Modulo element");
    let c = Modulo::<Additive>::try_new(2, 3).expect("Failed to create Modulo element");

    let group = FiniteGroup::try_new(vec![a, b, c]).expect("should create a FiniteGroup");

    assert!(group.is_closed());
}

#[test]
fn groups_test_is_closed_false() {
    let a = Modulo::<Additive>::try_new(0, 3).expect("Failed to create Modulo element");
    let b = Modulo::<Additive>::try_new(1, 3).expect("Failed to create Modulo element");

    let result = FiniteGroup::try_new(vec![a, b]);
    match result {
        Err(AbsaglError::Group(GroupError::NotClosed)) => {}
        _ => panic!("Expect Err(AbsaglError::Group(GroupError::NotClosed)), but got {:?}", result),
    }
}

#[test]
fn test_is_closed_parallel() {
    let s5 = Permutation::generate_group(5).expect("Failed to generate S5 group");
    let s5_group = FiniteGroup::new(s5);
    assert!(s5_group.is_closed_parallel());

    let s5 = Permutation::generate_group(5).expect("Failed to generate S5 group");
    let mut s5_missing = s5.clone();
    s5_missing.pop(); // Remove one element
    let s5_group_missing = FiniteGroup::new(s5_missing);
    assert_eq!(s5_group_missing.is_closed_parallel(), false);
}

#[test]
fn test_is_abelian_parallel() {
    let z100 = Modulo::<Additive>::generate_group(100).expect("Failed to generate Z100 group");
    let z100_group = FiniteGroup::new(z100);
    assert!(z100_group.is_abelian_parallel());

    let s6 = Permutation::generate_group(6).expect("Failed to generate S6 group");
    let s6_group = FiniteGroup::new(s6);
    assert!(!s6_group.is_abelian_parallel());
}

#[test]
fn groups_test_is_abelian_true() {
    let a = Modulo::<Additive>::try_new(0, 3).expect("Failed to create Modulo element");
    let b = Modulo::<Additive>::try_new(1, 3).expect("Failed to create Modulo element");
    let c = Modulo::<Additive>::try_new(2, 3).expect("Failed to create Modulo element");

    let group = FiniteGroup::try_new(vec![a, b, c]).expect("should create a FiniteGroup");

    assert!(group.is_abelian());
}

#[test]
fn groups_test_is_abelian_false() {
    let s3 = GroupGenerators::generate_permutation_group(3).expect("Failed to generate S3 group");
    assert!(!s3.is_abelian());
}

#[test]
fn test_generate_normal_subgroup_fail_not_subgroup() {
    let group = GroupGenerators::generate_modulo_group_add(5).unwrap();
    let g1 = Modulo::<Additive>::try_new(1, 5).unwrap();

    let result = group.generate_normal_subgroup(vec![g1]);

    match result {
        Err(AbsaglError::Group(GroupError::NotSubgroup)) => {}
        _ => panic!("Expected Err(AbsaglError::Group(GroupError::NotSubgroup)), but got {:?}", result),
    }
}

#[test]
fn test_generate_normal_subgroup_fail_not_normal() {
    let group = GroupGenerators::generate_permutation_group(3).unwrap();
    let g1 = Permutation::from_cycles(&vec![vec![0, 1]], 3).unwrap();

    let result = group.generate_normal_subgroup(vec![g1]);

    match result {
        Err(AbsaglError::Group(GroupError::NotNormalSubgroup)) => {}
        _ => panic!(
            "Expected Err(AbsaglError::Group(GroupError::NotNormalSubgroup)), but got {:?}",
            result
        ),
    }
}

#[test]
fn test_generate_normal_subgroup_success() {
    let group = GroupGenerators::generate_modulo_group_add(6).unwrap();
    let g2 = Modulo::<Additive>::try_new(2, 6).unwrap();

    let result = group.generate_normal_subgroup(vec![g2]);

    match result {
        Ok(subgroup) => {
            let g0 = Modulo::try_new(0, 6).unwrap();
            let g2 = Modulo::try_new(2, 6).unwrap();
            let g4 = Modulo::try_new(4, 6).unwrap();
            let expected = FiniteGroup::try_new(vec![g0, g2, g4]).expect("should create a FiniteGroup");
            assert!(subgroup.set_eq(&expected));
        }
        _ => panic!("Expected a normal subgroup, but got {:?}", result),
    }
}

#[test]
fn test_modulo_group_equal_success() {
    let a = Modulo::<Additive>::try_new(0, 3).expect("Failed to create Modulo element");
    let b = Modulo::<Additive>::try_new(1, 3).expect("Failed to create Modulo element");
    let c = Modulo::<Additive>::try_new(2, 3).expect("Failed to create Modulo element");

    let group1 = FiniteGroup::try_new(vec![a, b, c]).expect("should create a FiniteGroup");
    let group2 = FiniteGroup::try_new(vec![c, b, a]).expect("should create a FiniteGroup");
    assert!(group1.set_eq(&group2));
}

#[test]
fn test_modulo_group_equal_fail() {
    let g0 = Modulo::<Additive>::try_new(0, 4).expect("Failed to create Modulo element");
    let g1 = Modulo::<Additive>::try_new(1, 4).expect("Failed to create Modulo element");
    let g2 = Modulo::<Additive>::try_new(2, 4).expect("Failed to create Modulo element");
    let g3 = Modulo::<Additive>::try_new(3, 4).expect("Failed to create Modulo element");

    let group1 = FiniteGroup::try_new(vec![g0, g2]).expect("should create a FiniteGroup");
    let group2 = FiniteGroup::try_new(vec![g0, g1, g2, g3]).expect("should create a FiniteGroup");
    assert!(!group1.set_eq(&group2));
}

#[test]
fn test_permutation_group_equal_success() {
    let e = Permutation::try_new(vec![0, 1]).unwrap();
    let a = Permutation::try_new(vec![1, 0]).unwrap();

    let group1 = FiniteGroup::try_new(vec![e.clone(), a.clone()]).expect("should create a FiniteGroup");
    let group2 = FiniteGroup::try_new(vec![a.clone(), e.clone()]).expect("should create a FiniteGroup");
    assert!(group1.set_eq(&group2));
}

#[test]
fn test_permutation_group_equal_fail() {
    let e = Permutation::try_new(vec![0, 1]).unwrap();
    let a = Permutation::try_new(vec![1, 0]).unwrap();

    let group1 = FiniteGroup::try_new(vec![e.clone(), a.clone()]).expect("should create a FiniteGroup");
    let group2 = GroupGenerators::generate_permutation_group(3).unwrap();
    assert!(!group1.set_eq(&group2));
}

#[test]
fn test_abelian_decomposition() {
    let group = GroupGenerators::generate_modulo_group_add(6).unwrap();
    let decomposition = group.abelian_decomposition().expect("should decompose");

    assert_eq!(decomposition.prime_power_orders, vec![(2, 1), (3, 1)]);
    assert_eq!(decomposition.order(), 6);
}

#[test]
fn test_generate_modulo_group_add() {
    let group = GroupGenerators::generate_modulo_group_add(5).expect("Failed to generate modulo group");
    assert_eq!(group.order(), 5);
}

#[test]
fn test_generate_modulo_group_mul() {
    let group = GroupGenerators::generate_modulo_group_mul(5).expect("Failed to generate modulo group");
    assert_eq!(group.order(), 4); // 0 is not included in multiplicative group
}

#[test]
fn test_generate_permutation_group() {
    let group = GroupGenerators::generate_permutation_group(3).expect("Failed to generate permutation group");
    assert_eq!(group.order(), 6); // S3 has 6 elements
}

#[test]
fn test_generate_alternating_group() {
    let group = GroupGenerators::generate_alternating_group(3).expect("Failed to generate alternating group");
    assert_eq!(group.order(), 3); // A3 has 3 elements
}

#[test]
fn test_generate_dihedral_group() {
    let group = GroupGenerators::generate_dihedral_group(3).expect("Failed to generate dihedral group");
    assert_eq!(group.order(), 6); // D3 has 6 elements
}

#[test]
fn test_group_identity_search() {
    let group = GroupGenerators::generate_modulo_group_add(6).unwrap();
    let e = group.identity().expect("additive group has an identity");
    assert_eq!(e.value(), 0);
}

#[test]
fn test_group_identity_not_found() {
    // {1, 2} mod 3 under addition has no two-sided identity member.
    let a = Modulo::<Additive>::new(1, 3).unwrap();
    let b = Modulo::<Additive>::new(2, 3).unwrap();
    let group = FiniteGroup::new(vec![a, b]);
    match group.identity() {
        Err(GroupError::NotFound) => (),
        other => panic!("expected NotFound, got {:?}", other),
    }
}

#[test]
fn test_group_canonical_encodings_agree_for_equal_elements() {
    // Equal elements produce identical canonical byte encodings.
    let a = Modulo::<Additive>::new(2, 5).unwrap();
    let b = Modulo::<Additive>::new(2, 5).unwrap();
    assert_eq!(a.to_canonical_bytes(), b.to_canonical_bytes());
    let p = Permutation::try_new(vec![1, 0]).unwrap();
    let q = Permutation::try_new(vec![1, 0]).unwrap();
    assert_eq!(p.to_canonical_bytes(), q.to_canonical_bytes());
}

#[test]
fn test_modulo_direct_construction() {
    let a = Modulo::<Additive> { value: 3, modulus: 5, _marker: PhantomData };
    let b = Modulo::<Additive> { value: 4, modulus: 5, _marker: PhantomData };
    let c = a.op(&b);
    assert_eq!(c.value(), 2); // (3 + 4) mod 5 = 2
}

#[test]
fn test_identity_element() {
    let identity = Modulo::<Additive>::identity(5);
    assert_eq!(identity.value(), 0); // Identity for addition mod n is 0
}

#[test]
fn test_inverse_element() {
    let a = Modulo::<Additive> { value: 3, modulus: 5, _marker: PhantomData };
    let inverse = a.inverse();
    assert_eq!(inverse.value(), 2); // Inverse of 3 mod 5 is 2
}

#[test]
fn test_checked_op_err_on_mismatch() {
    let a = Modulo::<Additive>::new(1, 5).unwrap();
    let b = Modulo::<Additive>::new(1, 7).unwrap();
    match a.checked_op(&b) {
        Err(ModuloError::SizeNotMatch) => (),
        other => panic!("expected SizeNotMatch, got {:?}", other),
    }
}
