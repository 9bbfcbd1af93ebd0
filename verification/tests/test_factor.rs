use absagl::error::AbsaglError;
use absagl::groups::factor::{Coset, CosetError, CosetSide, FactorGroup};
use absagl::groups::modulo::Modulo;
use absagl::groups::permutation::{Permutation, PermutationError};
use absagl::groups::{Additive, FiniteGroup, GroupError, GroupGenerators};

#[test]
fn test_coset_create_err() {
    let a = Modulo::<Additive>::new(0, 3).expect("Failed to create Modulo element");
    let b = Modulo::<Additive>::new(1, 3).expect("Failed to create Modulo element");

    let group = FiniteGroup::new(vec![a, b]);

    let result = Coset::new(b, &group, CosetSide::Left);

    match result {
        Err(AbsaglError::Coset(CosetError::InvalidSubgroup(GroupError::NotClosed))) => {},
        _ => panic!(
            "Expected Err(AbsaglError::Coset(CosetError::InvalidSubgroup(GroupError::NotClosed))), but got {:?}",
            result
        ),
    }
}

#[test]
fn test_coset_eq_success() {
    let a = Modulo::<Additive>::new(2, 6).expect("should create element");

    let e = Modulo::<Additive>::new(0, 6).expect("should create element");
    let b = Modulo::<Additive>::new(2, 6).expect("should create element");
    let c = Modulo::<Additive>::new(4, 6).expect("should create element");

    let group = FiniteGroup::new(vec![e, b, c]);

    let coset1 = Coset { representative: a, subgroup: &group, side: CosetSide::Left };
    let coset2 = Coset { representative: c, subgroup: &group, side: CosetSide::Left };

    assert!(coset1.coset_eq(&coset2), "different representative should be equal");
}

#[test]
fn test_coset_eq_fail() {
    let e = Modulo::<Additive>::new(0, 8).expect("should create element");
    let a = Modulo::<Additive>::new(2, 8).expect("should create element");
    let b = Modulo::<Additive>::new(4, 8).expect("should create element");
    let c = Modulo::<Additive>::new(6, 8).expect("should create element");

    let group1 = FiniteGroup::new(vec![e, a, b, c]);
    let group2 = FiniteGroup::new(vec![e, b]);

    let coset1 = Coset { representative: b, subgroup: &group1, side: CosetSide::Left };
    let coset2 = Coset { representative: b, subgroup: &group2, side: CosetSide::Left };

    assert!(!coset1.coset_eq(&coset2), "different normal subgroup should not equal");
}

#[test]
fn test_coset_op() {
    let a = Modulo::<Additive>::new(2, 6).expect("should create element");

    let e = Modulo::<Additive>::new(0, 6).expect("should create element");
    let b = Modulo::<Additive>::new(2, 6).expect("should create element");
    let c = Modulo::<Additive>::new(4, 6).expect("should create element");

    let group = FiniteGroup::new(vec![e, b, c]);
    let coset1 = Coset { representative: a, subgroup: &group, side: CosetSide::Left };
    let expected = Coset { representative: c, subgroup: &group, side: CosetSide::Left };

    let coset_result = coset1.op(&coset1);

    assert!(coset_result.coset_eq(&expected), "they should equal")
}

#[test]
fn test_coset_checked_op_fail_box_error() {
    let a = Permutation::new(vec![0, 1, 2]);
    let b = Permutation::new(vec![0, 1]);
    let s3 = GroupGenerators::generate_permutation_group(3).unwrap();

    let coset1 = Coset::new(a, &s3, CosetSide::Left).unwrap();
    let coset2 = Coset::new(b, &s3, CosetSide::Left).unwrap();

    match coset1.checked_op(&coset2) {
        Ok(_) => panic!("should not succeed"),
        Err(CosetError::Element(e)) => match *e {
            AbsaglError::Permutation(PermutationError::SizeNotMatch) => {}
            other => panic!("Expected a permutation size mismatch, but got {:?}", other),
        },
        Err(e) => panic!("Expect Err(CosetError::Element(e)), but got {:?}", e),
    }
}

#[test]
fn test_coset_inverse() {
    let a = Modulo::<Additive>::new(2, 6).expect("should create element");

    let e = Modulo::<Additive>::new(0, 6).expect("should create element");
    let b = Modulo::<Additive>::new(2, 6).expect("should create element");
    let c = Modulo::<Additive>::new(4, 6).expect("should create element");

    let group = FiniteGroup::new(vec![e, b, c]);

    let coset1 = Coset { representative: a, subgroup: &group, side: CosetSide::Left };

    let coset1_inv = coset1.inverse();
    assert!(coset1.coset_eq(&coset1_inv), "in this coset, the inverse equals itself");
}

#[test]
fn test_enumerate_coset() {
    let a = Modulo::<Additive>::new(2, 6).expect("should create element");

    let e = Modulo::<Additive>::new(0, 6).expect("should create element");
    let b = Modulo::<Additive>::new(2, 6).expect("should create element");
    let c = Modulo::<Additive>::new(4, 6).expect("should create element");

    let group = FiniteGroup::new(vec![e, b, c]);

    let coset1 = Coset { representative: a, subgroup: &group, side: CosetSide::Left };

    let mut coset1_set = coset1.enumerate_coset();
    coset1_set.sort_unstable();

    assert!(coset1_set == *group.elements(), "should be true");

    let d1 = Modulo::<Additive>::new(1, 6).expect("should create an element");
    let d3 = Modulo::<Additive>::new(3, 6).expect("should create an element");
    let d5 = Modulo::<Additive>::new(5, 6).expect("should create an element");

    let coset2 = Coset { representative: d1, subgroup: &group, side: CosetSide::Left };

    let coset2_set = coset2.enumerate_coset();

    assert!(coset2_set == vec![d1, d3, d5], "should be true")
}

#[test]
fn test_coset_get_canonical_representative() {
    let e = Modulo::<Additive>::new(0, 8).expect("should create element");
    let a = Modulo::<Additive>::new(2, 8).expect("should create element");
    let b = Modulo::<Additive>::new(4, 8).expect("should create element");
    let c = Modulo::<Additive>::new(6, 8).expect("should create element");

    let group = FiniteGroup::new(vec![e, a, b, c]);
    let coset1 = Coset::new(a, &group, CosetSide::Left).unwrap();

    assert_eq!(e, coset1.get_canonical_representative());
}

#[test]
fn test_factor_group_order() {
    let e = Modulo::<Additive>::new(0, 6).expect("should create element");
    let b = Modulo::<Additive>::new(2, 6).expect("should create element");
    let c = Modulo::<Additive>::new(4, 6).expect("should create element");

    let normal_subgroup = FiniteGroup::new(vec![e, b, c]);
    let group = GroupGenerators::generate_modulo_group_add(6).expect("should generate group");

    let factor_group = FactorGroup { group: &group, normal_subgroup: &normal_subgroup };

    assert!(factor_group.order() == 2, "the order should be 2");
}

#[test]
fn test_factor_group_is_abelian() {
    let e = Modulo::<Additive>::new(0, 6).expect("should create element");
    let b = Modulo::<Additive>::new(2, 6).expect("should create element");
    let c = Modulo::<Additive>::new(4, 6).expect("should create element");

    let normal_subgroup = FiniteGroup::new(vec![e, b, c]);
    let group = GroupGenerators::generate_modulo_group_add(6).expect("should generate group");

    let factor_group = FactorGroup { group: &group, normal_subgroup: &normal_subgroup };

    assert!(factor_group.is_abelian(), "should be true");
}

#[test]
fn test_factor_group_new_order_differs() {
    // Lagrange: the factor group order is |G| / |N| with no remainder.
    let group = GroupGenerators::generate_modulo_group_add(8).unwrap();
    let e = Modulo::<Additive>::new(0, 8).unwrap();
    let b = Modulo::<Additive>::new(4, 8).unwrap();
    let subgroup = FiniteGroup::new(vec![e, b]);
    let factor = FactorGroup::new(&group, &subgroup).expect("should build the factor group");
    assert_eq!(factor.order(), 4);
    assert_eq!(factor.order() * subgroup.order(), group.order());
}

#[test]
fn test_coset_right_side_membership() {
    // The right convention uses h * representative; for an abelian group the
    // enumerations agree element-wise with the left convention.
    let e = Modulo::<Additive>::new(0, 6).unwrap();
    let b = Modulo::<Additive>::new(2, 6).unwrap();
    let c = Modulo::<Additive>::new(4, 6).unwrap();
    let group = FiniteGroup::new(vec![e, b, c]);
    let d1 = Modulo::<Additive>::new(1, 6).unwrap();
    let left = Coset { representative: d1, subgroup: &group, side: CosetSide::Left };
    let right = Coset { representative: d1, subgroup: &group, side: CosetSide::Right };
    assert_eq!(left.enumerate_coset(), right.enumerate_coset());
    // A left coset never equals a right coset.
    assert!(!left.coset_eq(&right));
    // Each side is reflexive on its own.
    assert!(right.coset_eq(&right));
    // Both enumerations hold exactly as many elements as the subgroup.
    assert_eq!(left.enumerate_coset().len(), group.order());
    assert_eq!(right.enumerate_coset().len(), group.order());
}

#[test]
fn test_factor_group_identity_coset() {
    let group = GroupGenerators::generate_modulo_group_add(6).unwrap();
    let e = Modulo::<Additive>::new(0, 6).unwrap();
    let b = Modulo::<Additive>::new(2, 6).unwrap();
    let c = Modulo::<Additive>::new(4, 6).unwrap();
    let subgroup = FiniteGroup::new(vec![e, b, c]);
    let factor = FactorGroup::new(&group, &subgroup).unwrap();
    let id_coset = factor.identity().expect("the ambient group has an identity");
    // The identity coset is the subgroup itself.
    let sub_coset = Coset { representative: b, subgroup: &subgroup, side: CosetSide::Left };
    assert!(id_coset.coset_eq(&sub_coset));
}

#[test]
fn test_set_equal_groups_share_canonical_form() {
    // Two groups holding one element set, stored in different orders,
    // produce identical canonical forms, so they hash identically.
    let a = Modulo::<Additive>::new(0, 3).unwrap();
    let b = Modulo::<Additive>::new(1, 3).unwrap();
    let c = Modulo::<Additive>::new(2, 3).unwrap();
    let group1 = FiniteGroup::new(vec![a, b, c]);
    let group2 = FiniteGroup::new(vec![c, a, b]);
    assert_eq!(group1.canonical_form(), group2.canonical_form());

    let p = absagl::groups::permutation::Permutation::new(vec![0, 1]);
    let q = absagl::groups::permutation::Permutation::new(vec![1, 0]);
    let pg1 = FiniteGroup::new(vec![p.clone(), q.clone()]);
    let pg2 = FiniteGroup::new(vec![q, p]);
    assert_eq!(pg1.canonical_form(), pg2.canonical_form());
}

#[test]
fn test_canonical_form_is_sorted() {
    let e = Modulo::<Additive>::new(0, 8).unwrap();
    let a = Modulo::<Additive>::new(6, 8).unwrap();
    let b = Modulo::<Additive>::new(2, 8).unwrap();
    let group = FiniteGroup::new(vec![a, e, b]);
    let form = group.canonical_form();
    assert_eq!(form.len(), 3);
    for w in form.windows(2) {
        assert!(w[0] <= w[1]);
    }
}
