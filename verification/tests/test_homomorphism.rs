use absagl::error::AbsaglError;
use absagl::groups::modulo::Modulo;
use absagl::groups::{Additive, GroupGenerators};
use absagl::homomorphism::{Homomorphism, HomomorphismError, IdentityMap, ModReduction};
use absagl::rings::Ring;

#[test]
fn test_homomorphism_apply_modulo() {
    // The reduction homomorphism into Z_2.
    let hom = Homomorphism::new(ModReduction { target_modulus: 2 }, None);

    let g = Modulo::<Additive>::try_new(3, 6).unwrap();
    let result = hom.apply(&g);
    assert_eq!(result.value(), 1);

    let g = Modulo::<Additive>::try_new(4, 6).unwrap();
    let result = hom.apply(&g);
    assert_eq!(result.value(), 0);
}

#[test]
fn test_homomorphism_try_new_success() {
    let z4 = GroupGenerators::generate_modulo_group_add(4).unwrap();
    let hom = Homomorphism::try_new(&z4, ModReduction { target_modulus: 2 }, None);

    assert!(hom.is_ok(), "Homomorphism should be valid");
}

#[test]
fn test_homomorphism_try_new_failure() {
    // Reduction mod 3 is not a homomorphism out of Z_4: the moduli do not
    // divide, so the property fails on some pair.
    let z4 = GroupGenerators::generate_modulo_group_add(4).unwrap();
    let result = Homomorphism::try_new(&z4, ModReduction { target_modulus: 3 }, None);

    match result {
        Err(AbsaglError::Homomorphism(HomomorphismError::PropertyNotHeld)) => {},
        Err(e) => panic!("Expected a PropertyNotHeld error, but got {:?}", e),
        Ok(_) => panic!("Expected a PropertyNotHeld error, but the mapping verified"),
    }
}

#[test]
fn test_homomorphism_kernel() {
    let z6 = GroupGenerators::generate_modulo_group_add(6).unwrap();
    let hom = Homomorphism::new(ModReduction { target_modulus: 2 }, None);

    let identity_h = Modulo::<Additive>::try_new(0, 2).unwrap();

    let kernel = hom.kernel(&z6, &identity_h).unwrap();
    assert_eq!(kernel.order(), 3, "Kernel should have order 3");
    let values: Vec<u64> = kernel.elements().iter().map(|m| m.value()).collect();
    assert_eq!(values, vec![0, 2, 4]);
}

#[test]
fn test_homomorphism_image() {
    let z6 = GroupGenerators::generate_modulo_group_add(6).unwrap();
    let hom = Homomorphism::new(ModReduction { target_modulus: 2 }, None);

    let image = hom.image(&z6).unwrap();
    assert_eq!(image.order(), 2, "Image should have order 2");
}

#[test]
fn test_homomorphism_is_injective_success() {
    // trivial case, identity homomorphism
    let z6 = GroupGenerators::generate_modulo_group_add(6).unwrap();
    let hom = Homomorphism::new(IdentityMap { modulus: 6 }, None);

    assert!(hom.is_injective(&z6), "Homomorphism should be injective");
}

#[test]
fn test_homomorphism_is_injective_fail() {
    let z6 = GroupGenerators::generate_modulo_group_add(6).unwrap();
    let hom = Homomorphism::new(ModReduction { target_modulus: 2 }, None);

    assert!(!hom.is_injective(&z6), "Homomorphism should not be injective");
}

#[test]
fn test_homomorphism_is_surjective_success() {
    let z6 = GroupGenerators::generate_modulo_group_add(6).unwrap();
    let z2 = GroupGenerators::generate_modulo_group_add(2).unwrap();
    let hom = Homomorphism::new(ModReduction { target_modulus: 2 }, None);

    assert!(hom.is_surjective(&z6, &z2).unwrap(), "Homomorphism should be surjective");
}

#[test]
fn test_homomorphism_is_surjective_fail() {
    let z6 = GroupGenerators::generate_modulo_group_add(6).unwrap();
    let z2 = GroupGenerators::generate_modulo_group_add(2).unwrap();
    let hom = Homomorphism::new(ModReduction { target_modulus: 3 }, None);

    assert!(!hom.is_surjective(&z6, &z2).unwrap(), "Homomorphism should not be surjective");
}

#[test]
fn test_homomorphism_z4_to_z2_scenario() {
    // The classic scenario: x mod 2 from Z_4 to Z_2 has kernel {0, 2},
    // image {0, 1}, and is surjective but not injective.
    let z4 = GroupGenerators::generate_modulo_group_add(4).unwrap();
    let z2 = GroupGenerators::generate_modulo_group_add(2).unwrap();
    let hom = Homomorphism::try_new(&z4, ModReduction { target_modulus: 2 }, None)
        .expect("reduction mod 2 is a homomorphism on Z4");

    let identity_h = Modulo::<Additive>::try_new(0, 2).unwrap();
    let kernel = hom.kernel(&z4, &identity_h).unwrap();
    let kernel_values: Vec<u64> = kernel.elements().iter().map(|m| m.value()).collect();
    assert_eq!(kernel_values, vec![0, 2]);

    let image = hom.image(&z4).unwrap();
    let mut image_values: Vec<u64> = image.elements().iter().map(|m| m.value()).collect();
    image_values.sort_unstable();
    assert_eq!(image_values, vec![0, 1]);

    assert!(hom.is_surjective(&z4, &z2).unwrap());
    assert!(!hom.is_injective(&z4));
}

#[test]
fn test_ring_trait_used_in_tests() {
    // Names the Ring trait so its methods resolve here as well.
    let ring = absagl::rings::RingGenerators::zn(3).unwrap();
    assert_eq!(ring.zero().value(), 0);
}
