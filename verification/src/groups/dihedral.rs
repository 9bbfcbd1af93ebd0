//! Dihedral group elements: the rotations and reflections of a regular
//! polygon.

use vstd::prelude::*;
use crate::error::AbsaglError;
use crate::groups::{CanonicalRepr, CheckedOp, GroupElement};
use crate::groups::{push_u64_be, spec_u64_be};
use crate::utils;
use crate::utils::gcd_nat;

verus! {

/// Errors of the dihedral element family.
#[derive(Debug)]
pub enum DihedralError {
    SizeCannotBeZero,
    SizeNotMatch,
}

/// A symmetry of the regular n-gon: a rotation index, a reflection flag,
/// and the polygon size.
#[derive(Copy, Clone, PartialEq, Debug, Eq, Hash)]
pub struct DihedralElement {
    pub rotation: usize,
    pub reflection: bool,
    pub n: usize,
}

impl GroupElement for DihedralElement {
    /// An element is its own mathematical value.
    type Model = DihedralElement;

    open spec fn model(self) -> DihedralElement {
        self
    }

    /// A valid element rotates by less than the nonzero polygon size.
    open spec fn m_wf(m: DihedralElement) -> bool {
        m.n >= 1 && m.rotation < m.n
    }

    open spec fn m_compat(a: DihedralElement, b: DihedralElement) -> bool {
        a.n == b.n
    }

    /// Rotation indices add mod n; reflection flags combine by exclusive or.
    open spec fn m_op(a: DihedralElement, b: DihedralElement) -> DihedralElement {
        DihedralElement {
            rotation: (((a.rotation + b.rotation) as nat) % (a.n as nat)) as usize,
            reflection: a.reflection != b.reflection,
            n: a.n,
        }
    }

    /// A rotation is undone by the complementary rotation; a reflection is
    /// its own inverse.
    open spec fn m_inv(a: DihedralElement) -> DihedralElement {
        DihedralElement {
            rotation: (((a.n - a.rotation) as nat) % (a.n as nat)) as usize,
            reflection: a.reflection,
            n: a.n,
        }
    }

    proof fn lemma_compat_refl(a: DihedralElement) {
    }

    proof fn lemma_compat_sym(a: DihedralElement, b: DihedralElement) {
    }

    proof fn lemma_compat_trans(a: DihedralElement, b: DihedralElement, c: DihedralElement) {
    }

    proof fn lemma_op_wf(a: DihedralElement, b: DihedralElement) {
        vstd::arithmetic::div_mod::lemma_mod_bound((a.rotation + b.rotation) as int, a.n as int);
    }

    proof fn lemma_inv_wf(a: DihedralElement) {
        vstd::arithmetic::div_mod::lemma_mod_bound((a.n - a.rotation) as int, a.n as int);
    }

    fn op(&self, other: &Self) -> (r: Self) {
        let n = self.n;
        let rot = if other.rotation >= n - self.rotation {
            other.rotation - (n - self.rotation)
        } else {
            self.rotation + other.rotation
        };
        proof {
            let s = (self.rotation + other.rotation) as int;
            if other.rotation >= n - self.rotation {
                vstd::arithmetic::div_mod::lemma_mod_multiples_vanish(1, s - n, n as int);
                vstd::arithmetic::div_mod::lemma_small_mod((s - n) as nat, n as nat);
            } else {
                vstd::arithmetic::div_mod::lemma_small_mod(s as nat, n as nat);
            }
        }
        DihedralElement {
            rotation: rot,
            reflection: self.reflection ^ other.reflection,
            n,
        }
    }

    fn inverse(&self) -> (r: Self) {
        proof {
            if self.rotation > 0 {
                vstd::arithmetic::div_mod::lemma_small_mod(
                    (self.n - self.rotation) as nat,
                    self.n as nat,
                );
            } else {
                vstd::arithmetic::div_mod::lemma_mod_self_0(self.n as int);
            }
        }
        DihedralElement {
            rotation: (self.n - self.rotation) % self.n,
            reflection: self.reflection,
            n: self.n,
        }
    }

    fn eq_el(&self, other: &Self) -> (r: bool) {
        self.rotation == other.rotation && self.reflection == other.reflection
            && self.n == other.n
    }

    fn compatible(&self, other: &Self) -> (r: bool) {
        self.n == other.n
    }

    fn clone_el(&self) -> (r: Self) {
        DihedralElement { rotation: self.rotation, reflection: self.reflection, n: self.n }
    }
}

impl CheckedOp for DihedralElement {
    type Error = DihedralError;

    open spec fn spec_wrap(e: DihedralError) -> AbsaglError {
        AbsaglError::Dihedral(e)
    }

    fn checked_op(&self, other: &Self) -> (r: Result<Self, DihedralError>) {
        if self.n != other.n {
            Err(DihedralError::SizeNotMatch)
        } else {
            Ok(self.op(other))
        }
    }

    proof fn lemma_wrap_not_hom(e: DihedralError) {
    }

    fn wrap_err(e: DihedralError) -> (r: AbsaglError) {
        AbsaglError::Dihedral(e)
    }
}

impl CanonicalRepr for DihedralElement {
    /// Big-endian rotation bytes, one reflection byte, big-endian size bytes.
    open spec fn m_canon(m: DihedralElement) -> Seq<u8> {
        spec_u64_be(m.rotation as u64)
            + seq![if m.reflection { 1u8 } else { 0u8 }]
            + spec_u64_be(m.n as u64)
    }

    fn to_canonical_bytes(&self) -> (r: Vec<u8>) {
        let mut out: Vec<u8> = Vec::new();
        push_u64_be(&mut out, self.rotation as u64);
        out.push(if self.reflection { 1u8 } else { 0u8 });
        push_u64_be(&mut out, self.n as u64);
        proof {
            assert(out@ =~= Self::m_canon(self.model()));
        }
        out
    }
}

/// The order of a dihedral element: reflections have order 2, the identity
/// order 1, and a pure rotation order n / gcd(n, rotation).
pub open spec fn spec_dihedral_order(m: DihedralElement) -> nat {
    if m.reflection {
        2
    } else if m.rotation == 0 {
        1
    } else {
        m.n as nat / gcd_nat(m.n as nat, m.rotation as nat)
    }
}

impl DihedralElement {
    /// Creates a new element; the caller keeps the rotation within the
    /// nonzero polygon size.
    pub fn new(rotation: usize, reflection: bool, n: usize) -> (r: Self)
        requires
            n >= 1,
            rotation < n,
        ensures
            r == (DihedralElement { rotation, reflection, n }),
    {
        DihedralElement { rotation, reflection, n }
    }

    /// Creates a new element, rejecting a zero polygon size and reducing the
    /// rotation into range.
    pub fn try_new(rotation: usize, reflection: bool, n: usize) -> (r: Result<Self, AbsaglError>)
        ensures
            r is Ok <==> n >= 1,
            r matches Ok(d) ==> d == (DihedralElement {
                rotation: ((rotation as nat) % (n as nat)) as usize,
                reflection,
                n,
            }),
            r matches Err(e) ==> e matches AbsaglError::Dihedral(DihedralError::SizeCannotBeZero),
    {
        if n == 0 {
            return Err(AbsaglError::Dihedral(DihedralError::SizeCannotBeZero));
        }
        Ok(DihedralElement { rotation: rotation % n, reflection, n })
    }

    /// The identity element: no rotation, no reflection.
    pub fn identity(n: usize) -> (r: Self)
        ensures
            r == (DihedralElement { rotation: 0, reflection: false, n }),
    {
        DihedralElement { rotation: 0, reflection: false, n }
    }

    /// Returns the number of sides of the polygon.
    pub fn n(&self) -> (r: usize)
        ensures
            r == self.n,
    {
        self.n
    }

    /// Returns the rotation of the dihedral element.
    pub fn rotation(&self) -> (r: usize)
        ensures
            r == self.rotation,
    {
        self.rotation
    }

    /// Returns whether the dihedral element is a reflection.
    pub fn is_reflection(&self) -> (r: bool)
        ensures
            r == self.reflection,
    {
        self.reflection
    }

    /// Returns the order of the dihedral element.
    pub fn order(&self) -> (r: usize)
        requires
            self.n >= 1,
            self.rotation < self.n,
        ensures
            r == spec_dihedral_order(*self),
    {
        if self.reflection {
            return 2;
        }
        if self.rotation == 0 {
            1
        } else {
            proof {
                utils::lemma_gcd_pos(self.n as nat, self.rotation as nat);
                utils::lemma_gcd_divides(self.n as nat, self.rotation as nat);
                let g = gcd_nat(self.n as nat, self.rotation as nat);
                let k = choose|k: nat| self.n as nat == #[trigger] (k * g);
                assert(self.n as int == (g as int) * (k as int)) by (nonlinear_arith)
                    requires self.n as nat == k * g;
                vstd::arithmetic::div_mod::lemma_div_multiples_vanish(k as int, g as int);
            }
            self.n / utils::gcd(self.n, self.rotation)
        }
    }

    /// Generates the whole dihedral group: all n rotations, then all n
    /// reflections.
    pub fn generate_group(n: usize) -> (r: Result<Vec<Self>, AbsaglError>)
        ensures
            r is Ok <==> n >= 1,
            r matches Ok(v) ==> v@ == spec_dihedral_elements(n),
            r matches Err(e) ==> e matches AbsaglError::Dihedral(DihedralError::SizeCannotBeZero),
    {
        if n == 0 {
            return Err(AbsaglError::Dihedral(DihedralError::SizeCannotBeZero));
        }
        let mut elements: Vec<DihedralElement> = Vec::new();
        let mut i: usize = 0;
        while i < n
            invariant
                i <= n,
                elements@.len() == i,
                forall|k: int| 0 <= k < i ==> elements@[k] == (DihedralElement {
                    rotation: k as usize,
                    reflection: false,
                    n,
                }),
            decreases n - i,
        {
            elements.push(DihedralElement { rotation: i, reflection: false, n });
            i = i + 1;
        }
        let mut j: usize = 0;
        while j < n
            invariant
                j <= n,
                elements@.len() == n + j,
                forall|k: int| 0 <= k < n ==> elements@[k] == (DihedralElement {
                    rotation: k as usize,
                    reflection: false,
                    n,
                }),
                forall|k: int| 0 <= k < j ==> #[trigger] elements@[n + k] == (DihedralElement {
                    rotation: k as usize,
                    reflection: true,
                    n,
                }),
            decreases n - j,
        {
            elements.push(DihedralElement { rotation: j, reflection: true, n });
            j = j + 1;
        }
        proof {
            assert forall|k: int| 0 <= k < elements@.len() implies
                elements@[k] == spec_dihedral_elements(n)[k] by {
                if k >= n {
                    assert(elements@[n + (k - n)] == (DihedralElement {
                        rotation: (k - n) as usize,
                        reflection: true,
                        n,
                    }));
                }
            }
            assert(elements@ =~= spec_dihedral_elements(n));
        }
        Ok(elements)
    }
}

/// The element list of the dihedral group on an n-gon: n rotations followed
/// by n reflections.
pub open spec fn spec_dihedral_elements(n: usize) -> Seq<DihedralElement> {
    Seq::new(
        2 * n as nat,
        |k: int| if k < n {
            DihedralElement { rotation: k as usize, reflection: false, n }
        } else {
            DihedralElement { rotation: (k - n) as usize, reflection: true, n }
        },
    )
}

} // verus!
