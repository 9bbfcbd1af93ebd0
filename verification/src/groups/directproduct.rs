//! Direct-product elements: tuples of additive modular residues combined
//! component-wise.

use vstd::prelude::*;
use crate::error::AbsaglError;
use crate::groups::{Additive, CheckedOp, GroupElement};
use crate::groups::modulo::{Modulo, ModuloError};

verus! {

/// Errors of the direct-product element family.
#[derive(Debug)]
pub enum DirectProductError {
    DifferentComponentCount,
    Modulo(ModuloError),
}

/// An element in a direct product of cyclic groups: one additive residue
/// per factor.
#[derive(Debug, Clone, PartialEq, Eq, Hash)]
pub struct DirectProductElement {
    pub components: Vec<Modulo<Additive>>,
}

impl GroupElement for DirectProductElement {
    /// The mathematical value is the sequence of component residues.
    type Model = Seq<Modulo<Additive>>;

    open spec fn model(self) -> Seq<Modulo<Additive>> {
        self.components@
    }

    open spec fn m_wf(m: Seq<Modulo<Additive>>) -> bool {
        forall|i: int| 0 <= i < m.len()
            ==> <Modulo<Additive> as GroupElement>::m_wf(#[trigger] m[i])
    }

    /// Compatible tuples have equal component counts and per-component
    /// moduli.
    open spec fn m_compat(a: Seq<Modulo<Additive>>, b: Seq<Modulo<Additive>>) -> bool {
        a.len() == b.len() && forall|i: int| 0 <= i < a.len()
            ==> (#[trigger] a[i]).modulus == b[i].modulus
    }

    open spec fn m_op(a: Seq<Modulo<Additive>>, b: Seq<Modulo<Additive>>) -> Seq<Modulo<Additive>> {
        Seq::new(a.len(), |i: int| <Modulo<Additive> as GroupElement>::m_op(a[i], b[i]))
    }

    open spec fn m_inv(a: Seq<Modulo<Additive>>) -> Seq<Modulo<Additive>> {
        Seq::new(a.len(), |i: int| <Modulo<Additive> as GroupElement>::m_inv(a[i]))
    }

    proof fn lemma_compat_refl(a: Seq<Modulo<Additive>>) {
    }

    proof fn lemma_compat_sym(a: Seq<Modulo<Additive>>, b: Seq<Modulo<Additive>>) {
    }

    proof fn lemma_compat_trans(
        a: Seq<Modulo<Additive>>,
        b: Seq<Modulo<Additive>>,
        c: Seq<Modulo<Additive>>,
    ) {
    }

    proof fn lemma_op_wf(a: Seq<Modulo<Additive>>, b: Seq<Modulo<Additive>>) {
        assert forall|i: int| 0 <= i < a.len() implies
            <Modulo<Additive> as GroupElement>::m_wf(#[trigger] Self::m_op(a, b)[i]) by {
            <Modulo<Additive> as GroupElement>::lemma_op_wf(a[i], b[i]);
        }
    }

    proof fn lemma_inv_wf(a: Seq<Modulo<Additive>>) {
        assert forall|i: int| 0 <= i < a.len() implies
            <Modulo<Additive> as GroupElement>::m_wf(#[trigger] Self::m_inv(a)[i]) by {
            <Modulo<Additive> as GroupElement>::lemma_inv_wf(a[i]);
        }
    }

    /// The group operation is performed component-wise.
    fn op(&self, other: &Self) -> (r: Self) {
        let n = self.components.len();
        let mut components: Vec<Modulo<Additive>> = Vec::new();
        let mut i: usize = 0;
        while i < n
            invariant
                i <= n,
                n == self.components@.len() == other.components@.len(),
                <DirectProductElement as GroupElement>::m_wf(self.components@),
                <DirectProductElement as GroupElement>::m_wf(other.components@),
                <DirectProductElement as GroupElement>::m_compat(
                    self.components@, other.components@),
                components@.len() == i,
                forall|k: int| 0 <= k < i ==> components@[k]
                    == <Modulo<Additive> as GroupElement>::m_op(
                        self.components@[k], other.components@[k]),
            decreases n - i,
        {
            let c = self.components[i].op(&other.components[i]);
            components.push(c);
            i = i + 1;
        }
        proof {
            assert(components@ =~= Self::m_op(self.components@, other.components@));
        }
        DirectProductElement { components }
    }

    /// The inverse is also found component-wise.
    fn inverse(&self) -> (r: Self) {
        let n = self.components.len();
        let mut components: Vec<Modulo<Additive>> = Vec::new();
        let mut i: usize = 0;
        while i < n
            invariant
                i <= n,
                n == self.components@.len(),
                <DirectProductElement as GroupElement>::m_wf(self.components@),
                components@.len() == i,
                forall|k: int| 0 <= k < i ==> components@[k]
                    == <Modulo<Additive> as GroupElement>::m_inv(self.components@[k]),
            decreases n - i,
        {
            let c = self.components[i].inverse();
            components.push(c);
            i = i + 1;
        }
        proof {
            assert(components@ =~= Self::m_inv(self.components@));
        }
        DirectProductElement { components }
    }

    fn eq_el(&self, other: &Self) -> (r: bool) {
        let n = self.components.len();
        if n != other.components.len() {
            return false;
        }
        let mut i: usize = 0;
        while i < n
            invariant
                i <= n,
                n == self.components@.len() == other.components@.len(),
                forall|k: int| 0 <= k < i ==> self.components@[k] == other.components@[k],
            decreases n - i,
        {
            if !self.components[i].eq_el(&other.components[i]) {
                return false;
            }
            i = i + 1;
        }
        proof {
            assert(self.components@ =~= other.components@);
        }
        true
    }

    fn compatible(&self, other: &Self) -> (r: bool) {
        let n = self.components.len();
        if n != other.components.len() {
            return false;
        }
        let mut i: usize = 0;
        while i < n
            invariant
                i <= n,
                n == self.components@.len() == other.components@.len(),
                forall|k: int| 0 <= k < i
                    ==> (#[trigger] self.components@[k]).modulus == other.components@[k].modulus,
            decreases n - i,
        {
            if self.components[i].modulus != other.components[i].modulus {
                return false;
            }
            i = i + 1;
        }
        true
    }

    fn clone_el(&self) -> (r: Self) {
        let n = self.components.len();
        let mut components: Vec<Modulo<Additive>> = Vec::new();
        let mut i: usize = 0;
        while i < n
            invariant
                i <= n,
                n == self.components@.len(),
                components@.len() == i,
                forall|k: int| 0 <= k < i ==> components@[k] == self.components@[k],
            decreases n - i,
        {
            components.push(self.components[i].clone());
            i = i + 1;
        }
        proof {
            assert(components@ =~= self.components@);
        }
        DirectProductElement { components }
    }
}

impl DirectProductElement {
    /// A fallible version of the component-wise operation: rejects unequal
    /// component counts, then a per-component modulus mismatch, naming the
    /// variant for each.
    pub fn checked_op(&self, other: &Self) -> (r: Result<Self, DirectProductError>)
        requires
            <Self as GroupElement>::m_wf(self.components@),
            <Self as GroupElement>::m_wf(other.components@),
        ensures
            r matches Err(DirectProductError::DifferentComponentCount)
                <==> self.components@.len() != other.components@.len(),
            r matches Err(DirectProductError::Modulo(ModuloError::DifferentModuli))
                <==> (self.components@.len() == other.components@.len()
                    && !<Self as GroupElement>::m_compat(self.components@, other.components@)),
            r is Ok <==> <Self as GroupElement>::m_compat(self.components@, other.components@),
            r matches Ok(v) ==> v.components@
                == <Self as GroupElement>::m_op(self.components@, other.components@),
    {
        let n = self.components.len();
        if n != other.components.len() {
            return Err(DirectProductError::DifferentComponentCount);
        }
        let mut i: usize = 0;
        while i < n
            invariant
                i <= n,
                n == self.components@.len() == other.components@.len(),
                forall|k: int| 0 <= k < i
                    ==> (#[trigger] self.components@[k]).modulus == other.components@[k].modulus,
            decreases n - i,
        {
            if self.components[i].modulus != other.components[i].modulus {
                return Err(DirectProductError::Modulo(ModuloError::DifferentModuli));
            }
            i = i + 1;
        }
        Ok(self.op(other))
    }
}

impl CheckedOp for DirectProductElement {
    type Error = DirectProductError;

    open spec fn spec_wrap(e: DirectProductError) -> AbsaglError {
        AbsaglError::DirectProduct(e)
    }

    /// The trait-level fallible operation delegates to the exact
    /// component-wise check.
    fn checked_op(&self, other: &Self) -> (r: Result<Self, DirectProductError>) {
        DirectProductElement::checked_op(self, other)
    }

    proof fn lemma_wrap_not_hom(e: DirectProductError) {
    }

    fn wrap_err(e: DirectProductError) -> (r: AbsaglError) {
        AbsaglError::DirectProduct(e)
    }
}

} // verus!
