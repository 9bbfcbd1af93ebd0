//! A computational abstract-algebra library for finite groups and rings.
//!
//! The crate models finite groups over several element families (modular
//! residues, permutations, dihedral symmetries, direct products), builds
//! derived structures (cosets, factor groups, homomorphisms), and verifies
//! their algebraic properties (closure, commutativity, normality).

pub mod error;
pub mod groups;
pub mod homomorphism;
pub mod laws;
pub mod rings;



pub mod utils;
