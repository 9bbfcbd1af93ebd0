//! The modular-residue ring element: addition, negation, and
//! multiplication mod n on one representation.

use vstd::prelude::*;
use crate::error::AbsaglError;
use crate::groups::{CanonicalRepr, CheckedOp, GroupElement};
use crate::groups::{push_u64_be, spec_u64_be};
use crate::groups::modulo::ModuloError;
use crate::rings::{CheckedRingOp, RingElement};
use vstd::string::StringExecFns;

verus! {

/// An element of the ring of integers mod n.
#[derive(Debug, Clone, Copy, PartialEq, Eq, Hash, PartialOrd, Ord)]
pub struct ModuloElement {
    pub value: u64,
    pub modulus: u64,
}

impl GroupElement for ModuloElement {
    /// An element is its own mathematical value; the primary group
    /// operation of a ring element is its addition.
    type Model = ModuloElement;

    open spec fn model(self) -> ModuloElement {
        self
    }

    open spec fn m_wf(m: ModuloElement) -> bool {
        m.modulus >= 1 && m.value < m.modulus
    }

    open spec fn m_compat(a: ModuloElement, b: ModuloElement) -> bool {
        a.modulus == b.modulus
    }

    open spec fn m_op(a: ModuloElement, b: ModuloElement) -> ModuloElement {
        ModuloElement {
            value: (((a.value + b.value) as nat) % (a.modulus as nat)) as u64,
            modulus: a.modulus,
        }
    }

    open spec fn m_inv(a: ModuloElement) -> ModuloElement {
        ModuloElement {
            value: (((a.modulus - a.value) as nat) % (a.modulus as nat)) as u64,
            modulus: a.modulus,
        }
    }

    proof fn lemma_compat_refl(a: ModuloElement) {
    }

    proof fn lemma_compat_sym(a: ModuloElement, b: ModuloElement) {
    }

    proof fn lemma_compat_trans(a: ModuloElement, b: ModuloElement, c: ModuloElement) {
    }

    proof fn lemma_op_wf(a: ModuloElement, b: ModuloElement) {
        vstd::arithmetic::div_mod::lemma_mod_bound((a.value + b.value) as int, a.modulus as int);
    }

    proof fn lemma_inv_wf(a: ModuloElement) {
        vstd::arithmetic::div_mod::lemma_mod_bound((a.modulus - a.value) as int, a.modulus as int);
    }

    fn op(&self, other: &Self) -> (r: Self) {
        self.add(other)
    }

    fn inverse(&self) -> (r: Self) {
        self.negate()
    }

    fn eq_el(&self, other: &Self) -> (r: bool) {
        self.value == other.value && self.modulus == other.modulus
    }

    fn compatible(&self, other: &Self) -> (r: bool) {
        self.modulus == other.modulus
    }

    fn clone_el(&self) -> (r: Self) {
        ModuloElement { value: self.value, modulus: self.modulus }
    }
}

impl RingElement for ModuloElement {
    open spec fn m_mul(a: ModuloElement, b: ModuloElement) -> ModuloElement {
        ModuloElement {
            value: (((a.value * b.value) as nat) % (a.modulus as nat)) as u64,
            modulus: a.modulus,
        }
    }

    proof fn lemma_mul_wf(a: ModuloElement, b: ModuloElement) {
        vstd::arithmetic::div_mod::lemma_mod_bound((a.value * b.value) as int, a.modulus as int);
    }

    /// The additive operation.
    fn add(&self, other: &Self) -> (r: Self) {
        let n = self.modulus;
        let v = if other.value >= n - self.value {
            other.value - (n - self.value)
        } else {
            self.value + other.value
        };
        proof {
            let s = (self.value + other.value) as int;
            if other.value >= n - self.value {
                vstd::arithmetic::div_mod::lemma_mod_multiples_vanish(1, s - n, n as int);
                vstd::arithmetic::div_mod::lemma_small_mod((s - n) as nat, n as nat);
            } else {
                vstd::arithmetic::div_mod::lemma_small_mod(s as nat, n as nat);
            }
        }
        ModuloElement { value: v, modulus: n }
    }

    /// The additive inverse.
    fn negate(&self) -> (r: Self) {
        proof {
            if self.value > 0 {
                vstd::arithmetic::div_mod::lemma_small_mod(
                    (self.modulus - self.value) as nat,
                    self.modulus as nat,
                );
            } else {
                vstd::arithmetic::div_mod::lemma_mod_self_0(self.modulus as int);
            }
        }
        ModuloElement {
            value: (self.modulus - self.value) % self.modulus,
            modulus: self.modulus,
        }
    }

    /// The multiplicative operation.
    fn mul(&self, other: &Self) -> (r: Self) {
        let n = self.modulus;
        proof {
            assert((self.value as int) * (other.value as int)
                <= (u64::MAX as int) * (u64::MAX as int)) by (nonlinear_arith)
                requires
                    0 <= self.value as int <= u64::MAX as int,
                    0 <= other.value as int <= u64::MAX as int,
            ;
        }
        let prod: u128 = (self.value as u128) * (other.value as u128);
        let v: u64 = (prod % (n as u128)) as u64;
        proof {
            vstd::arithmetic::div_mod::lemma_mod_bound(prod as int, n as int);
        }
        ModuloElement { value: v, modulus: n }
    }
}

impl CheckedOp for ModuloElement {
    type Error = ModuloError;

    open spec fn spec_wrap(e: ModuloError) -> AbsaglError {
        AbsaglError::Modulo(e)
    }

    /// The fallible group operation of a ring element is checked addition.
    fn checked_op(&self, other: &Self) -> (r: Result<Self, ModuloError>) {
        if self.modulus != other.modulus {
            Err(ModuloError::DifferentModuli)
        } else {
            Ok(self.add(other))
        }
    }

    proof fn lemma_wrap_not_hom(e: ModuloError) {
    }

    fn wrap_err(e: ModuloError) -> (r: AbsaglError) {
        AbsaglError::Modulo(e)
    }
}

impl CheckedRingOp for ModuloElement {
    type RingError = ModuloError;

    fn checked_add(&self, other: &Self) -> (r: Result<Self, ModuloError>) {
        if self.modulus != other.modulus {
            Err(ModuloError::DifferentModuli)
        } else {
            Ok(self.add(other))
        }
    }

    fn checked_mul(&self, other: &Self) -> (r: Result<Self, ModuloError>) {
        if self.modulus != other.modulus {
            Err(ModuloError::DifferentModuli)
        } else {
            Ok(self.mul(other))
        }
    }
}

impl CanonicalRepr for ModuloElement {
    /// Big-endian value bytes followed by big-endian modulus bytes.
    open spec fn m_canon(m: ModuloElement) -> Seq<u8> {
        spec_u64_be(m.value) + spec_u64_be(m.modulus)
    }

    fn to_canonical_bytes(&self) -> (r: Vec<u8>) {
        let mut out: Vec<u8> = Vec::new();
        push_u64_be(&mut out, self.value);
        push_u64_be(&mut out, self.modulus);
        proof {
            assert(out@ =~= Self::m_canon(self.model()));
        }
        out
    }
}

impl ModuloElement {
    /// Creates a new ring element, reducing the value into range; the caller
    /// keeps the modulus nonzero.
    pub fn new(value: u64, modulus: u64) -> (r: Self)
        requires
            modulus >= 1,
        ensures
            r == (ModuloElement { value: ((value as nat) % (modulus as nat)) as u64, modulus }),
    {
        ModuloElement { value: value % modulus, modulus }
    }

    /// Returns the residue value of the element.
    pub fn value(&self) -> (r: u64)
        ensures
            r == self.value,
    {
        self.value
    }

    /// Returns the modulus of the element.
    pub fn modulus(&self) -> (r: u64)
        ensures
            r == self.modulus,
    {
        self.modulus
    }

    /// Creates a new ring element, rejecting a zero modulus.
    pub fn try_new(value: u64, modulus: u64) -> (r: Result<Self, AbsaglError>)
        ensures
            r is Ok <==> modulus >= 1,
            r matches Ok(m) ==> m == (ModuloElement {
                value: ((value as nat) % (modulus as nat)) as u64,
                modulus,
            }),
            r matches Err(e) ==> e matches AbsaglError::Modulo(ModuloError::ZeroModulus),
    {
        if modulus == 0 {
            return Err(AbsaglError::Modulo(ModuloError::ZeroModulus));
        }
        Ok(ModuloElement { value: value % modulus, modulus })
    }

    /// Generates the element list of the ring of integers mod `modulus`;
    /// empty for a zero modulus.
    pub fn generate_modulo_group(modulus: u64) -> (r: Vec<Self>)
        ensures
            r@ == spec_ring_elements(modulus),
    {
        let mut elements: Vec<ModuloElement> = Vec::new();
        if modulus == 0 {
            proof {
                assert(elements@ =~= spec_ring_elements(0));
            }
            return elements;
        }
        let mut i: u64 = 0;
        while i < modulus
            invariant
                i <= modulus,
                elements@.len() == i as nat,
                forall|k: int| 0 <= k < i
                    ==> elements@[k] == (ModuloElement { value: k as u64, modulus }),
            decreases modulus - i,
        {
            elements.push(ModuloElement { value: i, modulus });
            i = i + 1;
        }
        proof {
            assert(elements@ =~= spec_ring_elements(modulus));
        }
        elements
    }
}

impl ModuloElement {
    /// A human-readable form of the element: the value, then its modulus.
    pub fn to_display_string(&self) -> String {
        let mut out = String::new();
        crate::groups::push_decimal(&mut out, self.value);
        out.append(" (mod ");
        crate::groups::push_decimal(&mut out, self.modulus);
        out.append(")");
        out
    }
}

/// The element list of the ring of integers mod n.
pub open spec fn spec_ring_elements(modulus: u64) -> Seq<ModuloElement> {
    Seq::new(modulus as nat, |i: int| ModuloElement { value: i as u64, modulus })
}

} // verus!
