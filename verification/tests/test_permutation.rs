use absagl::error::AbsaglError;
use absagl::groups::permutation::{AlternatingGroupElement, Permutation, PermutationError, SparsePerm};
use absagl::groups::{CanonicalRepr, CheckedOp, GroupElement};

#[test]
fn test_permutaion_create_success() {
    let a = Permutation::try_new(vec![0, 1, 2]).expect("should create permutation");
    assert_eq!(a.mapping(), &vec![0, 1, 2])
}

#[test]
fn test_permutaion_create_fail() {
    let result = Permutation::try_new(vec![0, 0, 2]);
    match result {
        Err(AbsaglError::Permutation(PermutationError::NonDisjointCycles)) => {},
        _ => panic!("Expected Err(PermutationError::NonDisjointCycles), but got {:?}", result),
    }
}

#[test]
fn test_permutation_op() {
    let a = Permutation::try_new(vec![0, 1, 2, 4, 3]).expect("should create permutation");
    let b = Permutation::try_new(vec![0, 2, 1, 3, 4]).expect("should create permutation");

    let c = a.op(&b);
    assert_eq!(c.mapping(), &vec![0, 2, 1, 4, 3]);
}

#[test]
fn test_permutation_identity() {
    let a = Permutation::try_new(vec![0, 1, 2, 3, 4]).expect("should create element");
    let identity = Permutation::identity(5);
    assert_eq!(identity.mapping(), a.mapping());
}

#[test]
fn test_permutation_is_even() {
    let perm = Permutation::try_new(vec![1, 0, 2, 4, 3]).expect("should create element");
    assert!(perm.is_even(), "The permutation should be even");

    let odd_perm = Permutation::try_new(vec![1, 0, 3, 4, 2]).expect("should create element");
    assert!(!odd_perm.is_even(), "The permutation should be odd");
}

#[test]
fn test_permutation_inverse() {
    let a = Permutation::try_new(vec![2, 1, 0, 4, 3]).expect("should create element");
    let inverse = a.inverse();
    let b = inverse.op(&a);
    let idenity = Permutation::identity(a.mapping().len());
    assert_eq!(b.mapping, idenity.mapping);
}

#[test]
fn test_permutation_checked_op_size_mismatch() {
    let a = Permutation::try_new(vec![0, 1, 2, 3]).expect("should create element");
    let b = Permutation::try_new(vec![0, 2, 1, 3, 4]).expect("should create element");
    let result = a.checked_op(&b);
    match result {
        Err(PermutationError::SizeNotMatch) => {},
        _ => panic!("Expected Err(PermutationError::SizeNotMatch), but got {:?}", result),
    }
}

#[test]
fn test_permutation_from_cycles_out_of_bounds() {
    // The cycle contains an element out of bounds for the given size
    let cycles = vec![vec![0, 5]]; // 5 is out of bounds for size 4
    let size = 4;
    let result = Permutation::from_cycles(&cycles, size);

    match result {
        Err(AbsaglError::Permutation(PermutationError::CycleIndexOutOfBounds)) => {},
        _ => panic!("Expected Err(PermutationError::CycleIndexOutOfBounds), but got {:?}", result),
    }
}

#[test]
fn test_permutation_from_cycles_valid() {
    // A valid cycle for size 5
    let cycles = vec![vec![0, 2, 4]];
    let size = 5;
    let perm = Permutation::from_cycles(&cycles, size).expect("Should construct permutation");
    // 0->2, 2->4, 4->0, 1->1, 3->3
    let expected = vec![2, 1, 4, 3, 0];
    assert_eq!(perm.mapping, expected);
}

#[test]
fn test_permutaion_order() {
    let perm = Permutation::try_new(vec![1, 0, 3, 4, 2]).expect("should create element");
    let order = perm.order();
    assert_eq!(order, 6, "The order of the permutation should be 6");
}

#[test]
fn test_permutation_pow() {
    let perm = Permutation::from_cycles(&vec![vec![0, 1, 2, 3]], 4).expect("should create element");
    let result = perm.pow(1);
    let expected = Permutation::try_new(vec![1, 2, 3, 0]).expect("should create element");
    assert_eq!(result.mapping, expected.mapping);

    let result = perm.pow(2);
    let expected = Permutation::try_new(vec![2, 3, 0, 1]).expect("should create element");
    assert_eq!(result.mapping, expected.mapping);

    let result = perm.pow(3);
    let expected = Permutation::try_new(vec![3, 0, 1, 2]).expect("should create element");
    assert_eq!(result.mapping, expected.mapping);

    let result = perm.pow(4);
    let expected = Permutation::identity(4);
    assert_eq!(result.mapping, expected.mapping);
}

#[test]
fn test_permutation_generate_group_heap() {
    let group = Permutation::generate_group_heap(3).expect("should generate group");
    assert_eq!(group.len(), 6, "The group should have 6 elements for S_3");
    // Check if the identity is present
    assert!(group.iter().any(|p| p.mapping == vec![0, 1, 2]));
}

#[test]
fn test_permutation_generate_group() {
    let group = Permutation::generate_group(3).expect("should generate group");
    assert_eq!(group.len(), 6, "The group should have 6 elements for S_3");
    // Check if the identity is present
    assert!(group.iter().any(|p| p.mapping == vec![0, 1, 2]));
}

#[test]
fn test_permutation_generate_subgroup() {
    // Example: generating a rotation group from its face rotations.
    let n = 8;
    let above_cycles = vec![vec![0, 1, 2, 3], vec![4, 5, 6, 7]];
    let front_cycles = vec![vec![0, 3, 7, 4], vec![1, 2, 6, 5]];
    let right_cycles = vec![vec![0, 1, 5, 4], vec![2, 6, 7, 3]];

    let above = Permutation::from_cycles(&above_cycles, n).unwrap();
    let front = Permutation::from_cycles(&front_cycles, n).unwrap();
    let right = Permutation::from_cycles(&right_cycles, n).unwrap();

    let generators = vec![above, front, right];

    match Permutation::generate_subgroup(&generators) {
        Ok(cube_group) => {
            // The order of the rotational symmetry group of a cube is 24.
            assert_eq!(cube_group.len(), 24);
        }
        Err(e) => {
            panic!("Error generating cube group: {:?}", e);
        }
    }
}

#[test]
fn permutation_test_to_canonical_bytes() {
    let a = Permutation::try_new(vec![0, 1]).expect("should create permutation");
    let b: Vec<u8> = vec![0, 0, 0, 0, 0, 0, 0, 0, 0, 0, 0, 0, 0, 0, 0, 1];
    assert_eq!(a.to_canonical_bytes(), b);
}

#[test]
fn test_alternating_group_element_creation_fail() {
    let perm = Permutation::try_new(vec![1, 0, 3, 4, 2]).expect("should create element");
    let result = AlternatingGroupElement::new(perm);
    match result {
        Err(AbsaglError::Permutation(PermutationError::NotEvenPermutation)) => {},
        _ => panic!(
            "Expected Err(AbsaglError::Permutation(PermutationError::NotEvenPermutation)), but got {:?}",
            result
        ),
    }
}

#[test]
fn test_alternating_group_element_creation_success() {
    let perm = Permutation::try_new(vec![1, 0, 2, 4, 3]).expect("should create element");
    let ag = AlternatingGroupElement::new(perm).expect("Should create AlternatingGroupElement");
    assert_eq!(ag.mapping().len(), 5);
}

#[test]
fn test_alternating_group_element_op() {
    let perm1 = Permutation::try_new(vec![0, 2, 1, 4, 3]).expect("should create element");
    let perm2 = Permutation::try_new(vec![0, 2, 1, 4, 3]).expect("should create element");
    let ag1 = AlternatingGroupElement::new(perm1).expect("Should create AlternatingGroupElement");
    let ag2 = AlternatingGroupElement::new(perm2).expect("Should create AlternatingGroupElement");
    let result = ag1.op(&ag2);
    assert_eq!(result.mapping(), &vec![0, 1, 2, 3, 4].into_iter().collect::<Vec<usize>>());
}

#[test]
fn test_alternating_group_element_identity() {
    let identity = AlternatingGroupElement::identity(5);
    assert_eq!(identity.mapping(), &vec![0, 1, 2, 3, 4]);
}

#[test]
fn test_alternating_group_element_inverse() {
    let perm = Permutation::try_new(vec![1, 0, 2, 4, 3]).expect("should create element");
    let ag = AlternatingGroupElement::new(perm).expect("Should create AlternatingGroupElement");
    let inverse = ag.inverse();
    let identity = AlternatingGroupElement::identity(5);
    let result = ag.op(&inverse);
    assert_eq!(result, identity, "The result of ag op inverse should be the identity element");
}

#[test]
fn test_alternating_group_element_order() {
    let perm = Permutation::try_new(vec![1, 0, 2, 4, 3]).expect("should create element");
    let ag = AlternatingGroupElement::new(perm).expect("Should create AlternatingGroupElement");
    let order = ag.order();
    assert_eq!(order, 2, "The order of the alternating group element should be 2");
}

#[test]
fn test_to_canonical_bytes() {
    let p = Permutation::from_cycles(&vec![vec![0, 1, 2]], 3).expect("should create permutation");
    let a = AlternatingGroupElement::new(p).expect("fail to create alternating element");
    let b: Vec<u8> = vec![
        0, 0, 0, 0, 0, 0, 0, 1, 0, 0, 0, 0, 0, 0, 0, 2, 0, 0, 0, 0, 0, 0, 0, 0,
    ];
    assert_eq!(a.to_canonical_bytes(), b);
}

#[test]
fn test_sparse_permutation_op() {
    let a = SparsePerm { mapping: vec![(0, 1), (1, 2), (2, 0)] };
    let b = SparsePerm { mapping: vec![(1, 2), (2, 0), (0, 1)] };
    let c = a.op(&b);

    assert_eq!(c.lookup(0), 2);
    assert_eq!(c.lookup(1), 0);
    assert_eq!(c.lookup(2), 1);
}

#[test]
fn test_sparse_permutation_identity() {
    let a = SparsePerm { mapping: vec![(0, 1), (1, 2), (2, 0)] };
    let identity = SparsePerm::identity();
    let b = a.op(&identity);

    assert_eq!(b.mapping, a.mapping);
}

#[test]
fn test_sparse_permutation_inverse() {
    let a = SparsePerm { mapping: vec![(0, 1), (1, 2), (2, 0)] };
    let inverse = a.inverse();
    let b = a.op(&inverse);
    // The result should be the identity permutation
    let mut identitical = true;
    for i in 0..b.mapping.len() {
        if b.lookup(i) != i {
            identitical = false;
        }
    }
    assert_eq!(identitical, true);
}

#[test]
fn test_cycle_on_five_points_order_three() {
    // A permutation built from one three-step cycle on five points has
    // mapping [2, 1, 4, 3, 0] and order 3.
    let perm = Permutation::from_cycles(&vec![vec![0, 2, 4]], 5).unwrap();
    assert_eq!(perm.mapping, vec![2, 1, 4, 3, 0]);
    assert_eq!(perm.order(), 3);
}

#[test]
fn test_pow_zero_is_identity() {
    let perm = Permutation::from_cycles(&vec![vec![0, 1, 2]], 4).unwrap();
    assert_eq!(perm.pow(0).mapping, Permutation::identity(4).mapping);
}

#[test]
fn test_display() {
    let a = Permutation::try_new(vec![0, 2, 1, 4, 3]).expect("should create permutation");
    assert_eq!(a.to_display_string(), "(1 2) (3 4) ");
}

#[test]
fn test_display_id() {
    let a = Permutation::try_new(vec![0, 1, 2, 3, 4]).expect("should create permutation");
    assert_eq!(a.to_display_string(), "(e)");
}
