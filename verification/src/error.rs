//! The crate-wide error type, collecting the error families of every module.

use vstd::prelude::*;

verus! {

/// The top-level error for the whole library; each module's error type has
/// a variant here.
#[derive(Debug)]
pub enum AbsaglError {
    Modulo(crate::groups::modulo::ModuloError),
    Permutation(crate::groups::permutation::PermutationError),
    Dihedral(crate::groups::dihedral::DihedralError),
    DirectProduct(crate::groups::directproduct::DirectProductError),
    Group(crate::groups::GroupError),
    Coset(crate::groups::factor::CosetError),
    Homomorphism(crate::homomorphism::HomomorphismError),
    Ring(crate::rings::RingError),
    Other(String),
}

} // verus!
