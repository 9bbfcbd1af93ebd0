//! Finite rings: a second, multiplicative operation and axiom verification
//! on top of the group element contract.

pub mod modulo;

use vstd::prelude::*;
use crate::error::AbsaglError;
use crate::groups::{
    contains_el, has_identity, identity_in, models, seq_abelian, seq_closed, seq_wf,
    FiniteGroup, GroupElement, GroupError,
};
use crate::groups::modulo::ModuloError;
use crate::rings::modulo::ModuloElement;

verus! {

/// Errors specific to ring validation.
#[derive(Debug)]
pub enum RingError {
    /// The underlying additive group is not abelian.
    AdditiveGroupNotAbelian,
    /// The set is not closed under multiplication.
    MultiplicationNotClosed,
    /// Multiplication is not associative.
    MultiplicationNotAssociative,
    /// The distributive property does not hold.
    DistributivityFailed,
    /// An error occurred in the underlying group structure.
    GroupError(GroupError),
}

/// An element of a ring: the group contract supplies the additive structure,
/// and this trait adds the multiplicative operation.
pub trait RingElement: GroupElement {
    /// The mathematical multiplication.
    spec fn m_mul(a: Self::Model, b: Self::Model) -> Self::Model;

    /// Multiplication stays in the domain of its arguments.
    proof fn lemma_mul_wf(a: Self::Model, b: Self::Model)
        requires
            Self::m_wf(a),
            Self::m_wf(b),
            Self::m_compat(a, b),
        ensures
            Self::m_wf(Self::m_mul(a, b)),
            Self::m_compat(Self::m_mul(a, b), a),
    ;

    /// The additive operation (the same as the group operation).
    fn add(&self, other: &Self) -> (r: Self)
        requires
            Self::m_wf(self.model()),
            Self::m_wf(other.model()),
            Self::m_compat(self.model(), other.model()),
        ensures
            r.model() == Self::m_op(self.model(), other.model()),
    ;

    /// The additive inverse.
    fn negate(&self) -> (r: Self)
        requires
            Self::m_wf(self.model()),
        ensures
            r.model() == Self::m_inv(self.model()),
    ;

    /// The multiplicative operation.
    fn mul(&self, other: &Self) -> (r: Self)
        requires
            Self::m_wf(self.model()),
            Self::m_wf(other.model()),
            Self::m_compat(self.model(), other.model()),
        ensures
            r.model() == Self::m_mul(self.model(), other.model()),
    ;
}

/// A trait for checked operations on ring elements, for callers that cannot
/// pre-validate compatible domains.
pub trait CheckedRingOp: RingElement {
    /// The element family's own error type.
    type RingError;

    /// A fallible addition: Ok exactly on compatible arguments.
    fn checked_add(&self, other: &Self) -> (r: Result<Self, Self::RingError>)
        requires
            Self::m_wf(self.model()),
            Self::m_wf(other.model()),
        ensures
            r is Ok <==> Self::m_compat(self.model(), other.model()),
            r matches Ok(v) ==> v.model() == Self::m_op(self.model(), other.model()),
    ;

    /// A fallible multiplication: Ok exactly on compatible arguments.
    fn checked_mul(&self, other: &Self) -> (r: Result<Self, Self::RingError>)
        requires
            Self::m_wf(self.model()),
            Self::m_wf(other.model()),
        ensures
            r is Ok <==> Self::m_compat(self.model(), other.model()),
            r matches Ok(v) ==> v.model() == Self::m_mul(self.model(), other.model()),
    ;
}

// ---- ring-level spec predicates ----

/// The sequence is closed under multiplication.
pub open spec fn mul_closed<T: RingElement>(s: Seq<T::Model>) -> bool {
    forall|i: int, j: int|
        0 <= i < s.len() && 0 <= j < s.len() ==> s.contains(#[trigger] T::m_mul(s[i], s[j]))
}

/// Multiplication is associative on the sequence.
pub open spec fn mul_assoc<T: RingElement>(s: Seq<T::Model>) -> bool {
    forall|i: int, j: int, k: int|
        0 <= i < s.len() && 0 <= j < s.len() && 0 <= k < s.len()
            ==> #[trigger] T::m_mul(T::m_mul(s[i], s[j]), s[k])
                == T::m_mul(s[i], T::m_mul(s[j], s[k]))
}

/// Multiplication distributes over addition on the left.
pub open spec fn left_distributive<T: RingElement>(s: Seq<T::Model>) -> bool {
    forall|i: int, j: int, k: int|
        0 <= i < s.len() && 0 <= j < s.len() && 0 <= k < s.len()
            ==> #[trigger] T::m_mul(s[i], T::m_op(s[j], s[k]))
                == T::m_op(#[trigger] T::m_mul(s[i], s[j]), T::m_mul(s[i], s[k]))
}

/// Multiplication commutes on the sequence.
pub open spec fn mul_commutative<T: RingElement>(s: Seq<T::Model>) -> bool {
    forall|i: int, j: int|
        0 <= i < s.len() && 0 <= j < s.len() ==> #[trigger] T::m_mul(s[i], s[j])
            == T::m_mul(s[j], s[i])
}

/// `e` is a two-sided multiplicative identity over the sequence.
pub open spec fn mul_identity_in<T: RingElement>(s: Seq<T::Model>, e: T::Model) -> bool {
    forall|i: int|
        0 <= i < s.len() ==> #[trigger] T::m_mul(s[i], e) == s[i] && T::m_mul(e, s[i]) == s[i]
}

/// A trait for rings: the identities and commutativity of the structure.
pub trait Ring<T: RingElement> {
    /// The models of the ring's elements.
    spec fn spec_ring_elems(&self) -> Seq<T::Model>;

    /// The model of the additive identity.
    spec fn spec_ring_zero(&self) -> T::Model;

    /// The model of the multiplicative identity, if one is recorded.
    spec fn spec_ring_one(&self) -> Option<T::Model>;

    /// The ring's elements and identities are valid and share one domain.
    spec fn ring_wf(&self) -> bool;

    /// Returns the additive identity (zero) of the ring.
    fn zero(&self) -> (r: &T)
        ensures
            r.model() == self.spec_ring_zero(),
    ;

    /// Returns the multiplicative identity (one) of the ring, if it exists.
    fn one(&self) -> (r: Option<&T>)
        ensures
            r matches Some(e) ==> self.spec_ring_one() matches Some(m) && e.model() == m,
            r is Some <==> self.spec_ring_one() is Some,
    ;

    /// Checks if the ring is commutative under multiplication.
    fn is_commutative(&self) -> (r: bool)
        requires
            self.ring_wf(),
        ensures
            r == mul_commutative::<T>(self.spec_ring_elems()),
    ;
}

/// A finite ring: an element list with its additive and (optional)
/// multiplicative identities.
#[derive(Debug, Clone)]
pub struct FiniteRing<T: RingElement> {
    elements: Vec<T>,
    zero: T,
    one: Option<T>,
}

impl<T: RingElement> Ring<T> for FiniteRing<T> {
    closed spec fn spec_ring_elems(&self) -> Seq<T::Model> {
        models(self.elements@)
    }

    closed spec fn spec_ring_zero(&self) -> T::Model {
        self.zero.model()
    }

    closed spec fn spec_ring_one(&self) -> Option<T::Model> {
        match self.one {
            Some(o) => Some(o.model()),
            None => None,
        }
    }

    closed spec fn ring_wf(&self) -> bool {
        &&& seq_wf::<T>(models(self.elements@))
        &&& T::m_wf(self.zero.model())
        &&& forall|i: int| 0 <= i < models(self.elements@).len()
            ==> T::m_compat(#[trigger] models(self.elements@)[i], self.zero.model())
        &&& match self.one {
            Some(o) => T::m_wf(o.model()) && forall|i: int|
                0 <= i < models(self.elements@).len()
                    ==> T::m_compat(#[trigger] models(self.elements@)[i], o.model()),
            None => true,
        }
    }

    fn zero(&self) -> (r: &T) {
        &self.zero
    }

    fn one(&self) -> (r: Option<&T>) {
        match &self.one {
            Some(o) => Some(o),
            None => None,
        }
    }

    fn is_commutative(&self) -> (r: bool) {
        let n = self.elements.len();
        let mut i: usize = 0;
        while i < n
            invariant
                i <= n,
                n == self.spec_ring_elems().len(),
                self.ring_wf(),
                self.spec_ring_elems() == models(self.elements@),
                forall|a: int, b: int|
                    0 <= a < i && 0 <= b < n
                        ==> #[trigger] T::m_mul(self.spec_ring_elems()[a],
                            self.spec_ring_elems()[b])
                            == T::m_mul(self.spec_ring_elems()[b], self.spec_ring_elems()[a]),
            decreases n - i,
        {
            let mut j: usize = 0;
            while j < n
                invariant
                    i < n,
                    j <= n,
                    n == self.spec_ring_elems().len(),
                    self.ring_wf(),
                    self.spec_ring_elems() == models(self.elements@),
                    forall|b: int|
                        0 <= b < j
                            ==> #[trigger] T::m_mul(self.spec_ring_elems()[i as int],
                                self.spec_ring_elems()[b])
                                == T::m_mul(self.spec_ring_elems()[b],
                                    self.spec_ring_elems()[i as int]),
                decreases n - j,
            {
                proof {
                    assert(self.spec_ring_elems()[i as int] == self.elements@[i as int].model());
                    assert(self.spec_ring_elems()[j as int] == self.elements@[j as int].model());
                }
                let left = self.elements[i].mul(&self.elements[j]);
                let right = self.elements[j].mul(&self.elements[i]);
                if !left.eq_el(&right) {
                    return false;
                }
                j = j + 1;
            }
            i = i + 1;
        }
        true
    }
}

impl<T: RingElement> FiniteRing<T> {
    /// Creates a new finite ring without verification: the caller trusts
    /// the elements and identities.
    pub fn new(elements: Vec<T>, zero: T, one: Option<T>) -> (r: Self)
        requires
            seq_wf::<T>(models(elements@)),
            T::m_wf(zero.model()),
            forall|i: int| 0 <= i < models(elements@).len()
                ==> T::m_compat(#[trigger] models(elements@)[i], zero.model()),
            one matches Some(o) ==> T::m_wf(o.model()) && forall|i: int|
                0 <= i < models(elements@).len()
                    ==> T::m_compat(#[trigger] models(elements@)[i], o.model()),
        ensures
            r.spec_ring_elems() == models(elements@),
            r.spec_ring_zero() == zero.model(),
            r.spec_ring_one() is Some <==> one is Some,
            one matches Some(o2) ==> (r.spec_ring_one() matches Some(m) && m == o2.model()),
            r.ring_wf(),
    {
        FiniteRing { elements, zero, one }
    }

    /// The number of elements in the ring.
    pub fn order(&self) -> (r: usize)
        ensures
            r == self.spec_ring_elems().len(),
    {
        self.elements.len()
    }

    /// Checks that the recorded zero is a member and a right additive
    /// identity, as the ring axioms require of the additive structure.
    pub fn is_additive_identity_valid(&self) -> (r: bool)
        requires
            self.ring_wf(),
        ensures
            r == (self.spec_ring_elems().contains(self.spec_ring_zero())
                && forall|i: int| 0 <= i < self.spec_ring_elems().len()
                    ==> #[trigger] T::m_op(self.spec_ring_elems()[i], self.spec_ring_zero())
                        == self.spec_ring_elems()[i]),
    {
        if !contains_el(&self.elements, &self.zero) {
            return false;
        }
        let n = self.elements.len();
        let mut i: usize = 0;
        while i < n
            invariant
                i <= n,
                n == self.spec_ring_elems().len(),
                self.ring_wf(),
                self.spec_ring_elems() == models(self.elements@),
                self.spec_ring_elems().contains(self.spec_ring_zero()),
                forall|k: int| 0 <= k < i
                    ==> #[trigger] T::m_op(self.spec_ring_elems()[k], self.spec_ring_zero())
                        == self.spec_ring_elems()[k],
            decreases n - i,
        {
            proof {
                assert(self.spec_ring_elems()[i as int] == self.elements@[i as int].model());
                T::lemma_compat_sym(self.spec_ring_elems()[i as int], self.spec_ring_zero());
            }
            let s = self.elements[i].add(&self.zero);
            if !s.eq_el(&self.elements[i]) {
                return false;
            }
            i = i + 1;
        }
        true
    }

    /// Checks that the recorded one, when present, is a member and a
    /// two-sided multiplicative identity; vacuously true when absent.
    pub fn is_multiplicative_identity_valid(&self) -> (r: bool)
        requires
            self.ring_wf(),
        ensures
            r == (match self.spec_ring_one() {
                Some(o) => self.spec_ring_elems().contains(o)
                    && mul_identity_in::<T>(self.spec_ring_elems(), o),
                None => true,
            }),
    {
        let one_candidate = match &self.one {
            Some(o) => o,
            None => {
                return true;
            },
        };
        if !contains_el(&self.elements, one_candidate) {
            return false;
        }
        let ghost om = one_candidate.model();
        let n = self.elements.len();
        let mut i: usize = 0;
        while i < n
            invariant
                i <= n,
                n == self.spec_ring_elems().len(),
                self.ring_wf(),
                self.spec_ring_elems() == models(self.elements@),
                self.spec_ring_one() matches Some(m) && m == om,
                om == one_candidate.model(),
                T::m_wf(om),
                forall|k: int| 0 <= k < n
                    ==> T::m_compat(#[trigger] self.spec_ring_elems()[k], om),
                self.spec_ring_elems().contains(om),
                forall|k: int| 0 <= k < i
                    ==> #[trigger] T::m_mul(self.spec_ring_elems()[k], om)
                        == self.spec_ring_elems()[k]
                        && T::m_mul(om, self.spec_ring_elems()[k]) == self.spec_ring_elems()[k],
            decreases n - i,
        {
            proof {
                assert(self.spec_ring_elems()[i as int] == self.elements@[i as int].model());
                T::lemma_compat_sym(self.spec_ring_elems()[i as int], om);
            }
            let left = self.elements[i].mul(one_candidate);
            let right = one_candidate.mul(&self.elements[i]);
            if !left.eq_el(&self.elements[i]) || !right.eq_el(&self.elements[i]) {
                return false;
            }
            i = i + 1;
        }
        true
    }

    /// Verifies the multiplicative axioms over an element list: closure,
    /// associativity, and left distributivity, in that order of reporting.
    pub fn verify_multiplicative_axioms(elements: &Vec<T>) -> (r: Result<(), AbsaglError>)
        requires
            seq_wf::<T>(models(elements@)),
        ensures
            r is Ok <==> (mul_closed::<T>(models(elements@)) && mul_assoc::<T>(models(elements@))
                && left_distributive::<T>(models(elements@))),
            r matches Err(AbsaglError::Ring(RingError::MultiplicationNotClosed))
                ==> !mul_closed::<T>(models(elements@)),
            r matches Err(AbsaglError::Ring(RingError::MultiplicationNotAssociative))
                ==> !mul_assoc::<T>(models(elements@)),
            r matches Err(AbsaglError::Ring(RingError::DistributivityFailed))
                ==> !left_distributive::<T>(models(elements@)),
            r matches Err(e) ==> (e matches AbsaglError::Ring(RingError::MultiplicationNotClosed)
                || e matches AbsaglError::Ring(RingError::MultiplicationNotAssociative)
                || e matches AbsaglError::Ring(RingError::DistributivityFailed)),
    {
        let ghost s = models(elements@);
        let n = elements.len();
        let mut i: usize = 0;
        while i < n
            invariant
                i <= n,
                n == s.len(),
                s == models(elements@),
                seq_wf::<T>(s),
                forall|a: int, b: int| 0 <= a < i && 0 <= b < n
                    ==> s.contains(#[trigger] T::m_mul(s[a], s[b])),
                forall|a: int, b: int, c: int| 0 <= a < i && 0 <= b < n && 0 <= c < n
                    ==> #[trigger] T::m_mul(T::m_mul(s[a], s[b]), s[c])
                        == T::m_mul(s[a], T::m_mul(s[b], s[c])),
                forall|a: int, b: int, c: int| 0 <= a < i && 0 <= b < n && 0 <= c < n
                    ==> #[trigger] T::m_mul(s[a], T::m_op(s[b], s[c]))
                        == T::m_op(#[trigger] T::m_mul(s[a], s[b]), T::m_mul(s[a], s[c])),
            decreases n - i,
        {
            let mut j: usize = 0;
            while j < n
                invariant
                    i < n,
                    j <= n,
                    n == s.len(),
                    s == models(elements@),
                    seq_wf::<T>(s),
                    forall|b: int| 0 <= b < j
                        ==> s.contains(#[trigger] T::m_mul(s[i as int], s[b])),
                    forall|b: int, c: int| 0 <= b < j && 0 <= c < n
                        ==> #[trigger] T::m_mul(T::m_mul(s[i as int], s[b]), s[c])
                            == T::m_mul(s[i as int], T::m_mul(s[b], s[c])),
                    forall|b: int, c: int| 0 <= b < j && 0 <= c < n
                        ==> #[trigger] T::m_mul(s[i as int], T::m_op(s[b], s[c]))
                            == T::m_op(#[trigger] T::m_mul(s[i as int], s[b]),
                                T::m_mul(s[i as int], s[c])),
                decreases n - j,
            {
                proof {
                    assert(s[i as int] == elements@[i as int].model());
                    assert(s[j as int] == elements@[j as int].model());
                }
                let product_ab = elements[i].mul(&elements[j]);
                if !contains_el(elements, &product_ab) {
                    return Err(AbsaglError::Ring(RingError::MultiplicationNotClosed));
                }
                proof {
                    T::lemma_mul_wf(s[i as int], s[j as int]);
                }
                let mut k: usize = 0;
                while k < n
                    invariant
                        i < n,
                        j < n,
                        k <= n,
                        n == s.len(),
                        s == models(elements@),
                        seq_wf::<T>(s),
                        product_ab.model() == T::m_mul(s[i as int], s[j as int]),
                        T::m_wf(product_ab.model()),
                        T::m_compat(product_ab.model(), s[i as int]),
                        forall|c: int| 0 <= c < k
                            ==> #[trigger] T::m_mul(T::m_mul(s[i as int], s[j as int]), s[c])
                                == T::m_mul(s[i as int], T::m_mul(s[j as int], s[c])),
                        forall|c: int| 0 <= c < k
                            ==> #[trigger] T::m_mul(s[i as int], T::m_op(s[j as int], s[c]))
                                == T::m_op(T::m_mul(s[i as int], s[j as int]),
                                    T::m_mul(s[i as int], s[c])),
                    decreases n - k,
                {
                    proof {
                        assert(s[k as int] == elements@[k as int].model());
                        T::lemma_compat_trans(product_ab.model(), s[i as int], s[k as int]);
                        T::lemma_mul_wf(s[j as int], s[k as int]);
                        T::lemma_compat_sym(T::m_mul(s[j as int], s[k as int]), s[j as int]);
                        T::lemma_compat_trans(s[i as int], s[j as int],
                            T::m_mul(s[j as int], s[k as int]));
                        T::lemma_op_wf(s[j as int], s[k as int]);
                        T::lemma_compat_sym(T::m_op(s[j as int], s[k as int]), s[j as int]);
                        T::lemma_compat_trans(s[i as int], s[j as int],
                            T::m_op(s[j as int], s[k as int]));
                        T::lemma_mul_wf(s[i as int], s[k as int]);
                        T::lemma_mul_wf(s[i as int], s[j as int]);
                        T::lemma_compat_sym(T::m_mul(s[i as int], s[k as int]), s[i as int]);
                        T::lemma_compat_trans(T::m_mul(s[i as int], s[j as int]), s[i as int],
                            T::m_mul(s[i as int], s[k as int]));
                    }
                    let lhs_assoc = product_ab.mul(&elements[k]);
                    let rhs_assoc = elements[i].mul(&elements[j].mul(&elements[k]));
                    if !lhs_assoc.eq_el(&rhs_assoc) {
                        return Err(AbsaglError::Ring(RingError::MultiplicationNotAssociative));
                    }
                    let lhs_distrib = elements[i].mul(&elements[j].add(&elements[k]));
                    let rhs_distrib = product_ab.add(&elements[i].mul(&elements[k]));
                    if !lhs_distrib.eq_el(&rhs_distrib) {
                        return Err(AbsaglError::Ring(RingError::DistributivityFailed));
                    }
                    k = k + 1;
                }
                j = j + 1;
            }
            i = i + 1;
        }
        Ok(())
    }

    /// Creates a new ring from elements and identity candidates, verifying
    /// the additive group, both identities, and the multiplicative axioms.
    pub fn try_new_with_identities(elements: Vec<T>, zero: T, one: Option<T>) -> (r: Result<
        Self,
        AbsaglError,
    >)
        requires
            seq_wf::<T>(models(elements@)),
            T::m_wf(zero.model()),
            forall|i: int| 0 <= i < models(elements@).len()
                ==> T::m_compat(#[trigger] models(elements@)[i], zero.model()),
            one matches Some(o) ==> T::m_wf(o.model()) && forall|i: int|
                0 <= i < models(elements@).len()
                    ==> T::m_compat(#[trigger] models(elements@)[i], o.model()),
        ensures
            r matches Ok(ring) ==> ({
                &&& ring.spec_ring_elems() == models(elements@)
                &&& ring.spec_ring_zero() == zero.model()
                &&& ring.ring_wf()
                &&& seq_closed::<T>(models(elements@))
                &&& seq_abelian::<T>(models(elements@))
                &&& models(elements@).contains(zero.model())
                &&& mul_closed::<T>(models(elements@))
                &&& mul_assoc::<T>(models(elements@))
                &&& left_distributive::<T>(models(elements@))
            }),
    {
        let additive_group = match FiniteGroup::try_new(clone_elements(&elements)) {
            Ok(g) => g,
            Err(e) => {
                return Err(e);
            },
        };
        if !additive_group.is_abelian() {
            return Err(AbsaglError::Ring(RingError::AdditiveGroupNotAbelian));
        }

        let ring = FiniteRing { elements, zero, one };

        if !ring.is_additive_identity_valid() {
            return Err(AbsaglError::Ring(RingError::GroupError(GroupError::NotFound)));
        }
        if !ring.is_multiplicative_identity_valid() {
            return Err(AbsaglError::Ring(RingError::GroupError(GroupError::NotFound)));
        }
        match Self::verify_multiplicative_axioms(&ring.elements) {
            Ok(()) => {},
            Err(e) => {
                return Err(e);
            },
        }
        Ok(ring)
    }

    /// Creates a new ring from a set of elements, discovering the identities
    /// by search, then verifying all ring axioms.
    pub fn try_new(elements: Vec<T>) -> (r: Result<Self, AbsaglError>)
        requires
            seq_wf::<T>(models(elements@)),
        ensures
            r matches Ok(ring) ==> ({
                &&& ring.spec_ring_elems() == models(elements@)
                &&& ring.ring_wf()
                &&& seq_closed::<T>(models(elements@))
                &&& seq_abelian::<T>(models(elements@))
                &&& identity_in::<T>(models(elements@), ring.spec_ring_zero())
                &&& mul_closed::<T>(models(elements@))
                &&& mul_assoc::<T>(models(elements@))
                &&& left_distributive::<T>(models(elements@))
            }),
            !has_identity::<T>(models(elements@)) ==> r is Err,
    {
        let additive_group = match FiniteGroup::try_new(clone_elements(&elements)) {
            Ok(g) => g,
            Err(e) => {
                return Err(e);
            },
        };
        let zero = match additive_group.identity() {
            Ok(e) => e,
            Err(_) => {
                return Err(AbsaglError::Ring(RingError::GroupError(GroupError::NotFound)));
            },
        };
        let one = find_mul_identity(&elements);
        proof {
            if one is Some {
                let om = one.unwrap().model();
                crate::groups::lemma_element_wf::<T>(models(elements@), om);
            }
            crate::groups::lemma_element_wf::<T>(models(elements@), zero.model());
            assert forall|i: int| 0 <= i < models(elements@).len() implies
                T::m_compat(#[trigger] models(elements@)[i], zero.model()) by {
                let z = choose|z: int| 0 <= z < models(elements@).len()
                    && models(elements@)[z] == zero.model();
                assert(T::m_compat(models(elements@)[i], models(elements@)[z]));
            }
            if one is Some {
                let om = one.unwrap().model();
                assert forall|i: int| 0 <= i < models(elements@).len() implies
                    T::m_compat(#[trigger] models(elements@)[i], om) by {
                    let z = choose|z: int| 0 <= z < models(elements@).len()
                        && models(elements@)[z] == om;
                    assert(T::m_compat(models(elements@)[i], models(elements@)[z]));
                }
            }
        }
        Self::try_new_with_identities(elements, zero, one)
    }
}

/// An explicit copy of an element list.
fn clone_elements<T: GroupElement>(elements: &Vec<T>) -> (r: Vec<T>)
    ensures
        models(r@) == models(elements@),
{
    let n = elements.len();
    let mut out: Vec<T> = Vec::new();
    let mut i: usize = 0;
    while i < n
        invariant
            i <= n,
            n == elements@.len(),
            out@.len() == i,
            forall|k: int| 0 <= k < i
                ==> (#[trigger] out@[k]).model() == elements@[k].model(),
        decreases n - i,
    {
        out.push(elements[i].clone_el());
        i = i + 1;
    }
    proof {
        assert(models(out@) =~= models(elements@));
    }
    out
}

/// Searches an element list for a two-sided multiplicative identity.
fn find_mul_identity<T: RingElement>(elements: &Vec<T>) -> (r: Option<T>)
    requires
        seq_wf::<T>(models(elements@)),
    ensures
        r matches Some(o) ==> models(elements@).contains(o.model())
            && mul_identity_in::<T>(models(elements@), o.model()),
{
    let ghost s = models(elements@);
    let n = elements.len();
    let mut c: usize = 0;
    while c < n
        invariant
            c <= n,
            n == s.len(),
            s == models(elements@),
            seq_wf::<T>(s),
        decreases n - c,
    {
        let mut all_ok = true;
        let mut i: usize = 0;
        while i < n && all_ok
            invariant
                c < n,
                i <= n,
                n == s.len(),
                s == models(elements@),
                seq_wf::<T>(s),
                all_ok ==> forall|k: int| 0 <= k < i
                    ==> #[trigger] T::m_mul(s[k], s[c as int]) == s[k],
                all_ok ==> forall|k: int| 0 <= k < i
                    ==> #[trigger] T::m_mul(s[c as int], s[k]) == s[k],
            decreases n - i,
        {
            proof {
                assert(s[i as int] == elements@[i as int].model());
                assert(s[c as int] == elements@[c as int].model());
            }
            let left = elements[i].mul(&elements[c]);
            let right = elements[c].mul(&elements[i]);
            if !left.eq_el(&elements[i]) || !right.eq_el(&elements[i]) {
                all_ok = false;
            }
            i = i + 1;
        }
        if all_ok {
            proof {
                assert(s[c as int] == elements@[c as int].model());
                assert(s.contains(s[c as int]));
            }
            return Some(elements[c].clone_el());
        }
        c = c + 1;
    }
    None
}

/// A collection of ring generators.
pub struct RingGenerators;

impl RingGenerators {
    /// Generates the finite ring of integers modulo n, Z_n, with 0 as zero
    /// and, when n > 1, 1 as one.
    pub fn zn(n: u64) -> (r: Result<FiniteRing<ModuloElement>, AbsaglError>)
        ensures
            n == 0 ==> r matches Err(AbsaglError::Modulo(ModuloError::ZeroModulus)),
            r matches Ok(ring) ==> ({
                &&& n >= 1
                &&& ring.spec_ring_elems() == models(crate::rings::modulo::spec_ring_elements(n))
                &&& ring.spec_ring_zero() == (ModuloElement { value: 0, modulus: n })
                &&& seq_closed::<ModuloElement>(ring.spec_ring_elems())
                &&& mul_closed::<ModuloElement>(ring.spec_ring_elems())
                &&& mul_assoc::<ModuloElement>(ring.spec_ring_elems())
                &&& left_distributive::<ModuloElement>(ring.spec_ring_elems())
            }),
    {
        if n == 0 {
            return Err(AbsaglError::Modulo(ModuloError::ZeroModulus));
        }
        let elements = ModuloElement::generate_modulo_group(n);
        let zero = ModuloElement::new(0, n);
        let one = if n > 1 {
            Some(ModuloElement::new(1, n))
        } else {
            None
        };
        proof {
            lemma_zn_ring_wf(n);
        }
        FiniteRing::try_new_with_identities(elements, zero, one)
    }
}

/// The element list of Z_n is a well-formed model sequence.
proof fn lemma_zn_ring_wf(n: u64)
    requires
        n >= 1,
    ensures
        models(crate::rings::modulo::spec_ring_elements(n))
            =~= crate::rings::modulo::spec_ring_elements(n),
        seq_wf::<ModuloElement>(crate::rings::modulo::spec_ring_elements(n)),
{
}

} // verus!
