//! Finite groups: the element capability contract, the finite-group
//! container, and its verification and generation algorithms.

pub mod dihedral;
pub mod directproduct;
pub mod factor;
pub mod modulo;
pub mod permutation;

use vstd::prelude::*;
use vstd::string::StringExecFns;
use rayon::iter::{IntoParallelIterator, ParallelIterator};
use crate::error::AbsaglError;
use crate::utils;

verus! {

/// Errors of the finite-group container and its algorithms.
#[derive(Debug)]
pub enum GroupError {
    NotClosed,
    NotAbelian,
    NotSubgroup,
    NotNormalSubgroup,
    NotFound,
}

/// A marker for additive group operations.
#[derive(Clone, Debug, Copy, PartialEq, Eq, PartialOrd, Ord, Hash)]
pub struct Additive;

/// A marker for multiplicative group operations.
#[derive(Clone, Debug, Copy, PartialEq, Eq, PartialOrd, Ord, Hash)]
pub struct Multiplicative;

/// The capability contract of a group element: a closed binary operation
/// and an inverse, together with their mathematical models.
///
/// Every element denotes a mathematical value, its `Model`; contracts are
/// stated over models, so that two elements with one model are
/// interchangeable. `m_wf` is a model's validity (membership in its
/// algebraic domain); `m_compat` says that two models live in the same
/// domain, so the operation is defined on them. The unchecked fast paths
/// `op` and `inverse` demand compatible, valid arguments from the caller.
pub trait GroupElement: Sized + Sync {
    /// The mathematical value of an element.
    type Model;

    /// The model this element denotes.
    spec fn model(self) -> Self::Model;

    /// The model is a valid member of its domain.
    spec fn m_wf(m: Self::Model) -> bool;

    /// Both models come from the same domain.
    spec fn m_compat(a: Self::Model, b: Self::Model) -> bool;

    /// The mathematical group operation.
    spec fn m_op(a: Self::Model, b: Self::Model) -> Self::Model;

    /// The mathematical inverse.
    spec fn m_inv(a: Self::Model) -> Self::Model;

    /// Compatibility is reflexive on valid models.
    proof fn lemma_compat_refl(a: Self::Model)
        requires
            Self::m_wf(a),
        ensures
            Self::m_compat(a, a),
    ;

    /// Compatibility is symmetric.
    proof fn lemma_compat_sym(a: Self::Model, b: Self::Model)
        requires
            Self::m_compat(a, b),
        ensures
            Self::m_compat(b, a),
    ;

    /// Compatibility is transitive.
    proof fn lemma_compat_trans(a: Self::Model, b: Self::Model, c: Self::Model)
        requires
            Self::m_compat(a, b),
            Self::m_compat(b, c),
        ensures
            Self::m_compat(a, c),
    ;

    /// The operation stays in the domain of its arguments.
    proof fn lemma_op_wf(a: Self::Model, b: Self::Model)
        requires
            Self::m_wf(a),
            Self::m_wf(b),
            Self::m_compat(a, b),
        ensures
            Self::m_wf(Self::m_op(a, b)),
            Self::m_compat(Self::m_op(a, b), a),
    ;

    /// The inverse stays in the domain of its argument.
    proof fn lemma_inv_wf(a: Self::Model)
        requires
            Self::m_wf(a),
        ensures
            Self::m_wf(Self::m_inv(a)),
            Self::m_compat(Self::m_inv(a), a),
    ;

    /// The group operation; callers must pre-validate compatible domains.
    fn op(&self, other: &Self) -> (r: Self)
        requires
            Self::m_wf(self.model()),
            Self::m_wf(other.model()),
            Self::m_compat(self.model(), other.model()),
        ensures
            r.model() == Self::m_op(self.model(), other.model()),
    ;

    /// The inverse of the element.
    fn inverse(&self) -> (r: Self)
        requires
            Self::m_wf(self.model()),
        ensures
            r.model() == Self::m_inv(self.model()),
    ;

    /// Decides equality of two elements, as equality of their models.
    fn eq_el(&self, other: &Self) -> (r: bool)
        ensures
            r == (self.model() == other.model()),
    ;

    /// Decides whether two elements come from the same domain.
    fn compatible(&self, other: &Self) -> (r: bool)
        ensures
            r == Self::m_compat(self.model(), other.model()),
    ;

    /// An explicit copy of the element.
    fn clone_el(&self) -> (r: Self)
        ensures
            r.model() == self.model(),
    ;
}

/// An optional capability for group elements: a fallible, checked operation
/// that reports incompatible domains instead of demanding pre-validation.
pub trait CheckedOp: GroupElement {
    /// The element family's own error type.
    type Error;

    /// How this family's error embeds into the crate-wide error.
    spec fn spec_wrap(e: Self::Error) -> AbsaglError;

    /// A fallible version of the group operation: Ok exactly on compatible
    /// arguments.
    fn checked_op(&self, other: &Self) -> (r: Result<Self, Self::Error>)
        requires
            Self::m_wf(self.model()),
            Self::m_wf(other.model()),
        ensures
            r is Ok <==> Self::m_compat(self.model(), other.model()),
            r matches Ok(v) ==> v.model() == Self::m_op(self.model(), other.model()),
    ;

    /// Wrapping stays inside the family's own variant: it never produces
    /// the homomorphism-property error.
    proof fn lemma_wrap_not_hom(e: Self::Error)
        ensures
            !(Self::spec_wrap(e) matches AbsaglError::Homomorphism(_)),
    ;

    /// Wraps this family's error into the crate-wide error.
    fn wrap_err(e: Self::Error) -> (r: AbsaglError)
        ensures
            r == Self::spec_wrap(e),
    ;
}

/// A unique, stable byte representation of an element, used to order and
/// hash elements of types that have no natural total order.
pub trait CanonicalRepr: GroupElement {
    /// The mathematical byte encoding, a function of the model alone.
    spec fn m_canon(m: Self::Model) -> Seq<u8>;

    /// Returns the canonical byte encoding of the element.
    fn to_canonical_bytes(&self) -> (r: Vec<u8>)
        ensures
            r@ == Self::m_canon(self.model()),
    ;
}

// ---- spec predicates over model sequences ----

/// The models of a sequence of elements.
pub open spec fn models<T: GroupElement>(s: Seq<T>) -> Seq<T::Model> {
    s.map_values(|x: T| x.model())
}

/// Every model is valid and any two are from the same domain.
pub open spec fn seq_wf<T: GroupElement>(s: Seq<T::Model>) -> bool {
    &&& forall|i: int| 0 <= i < s.len() ==> T::m_wf(#[trigger] s[i])
    &&& forall|i: int, j: int|
        0 <= i < s.len() && 0 <= j < s.len() ==> #[trigger] T::m_compat(s[i], s[j])
}

/// The sequence is closed under the element operation.
pub open spec fn seq_closed<T: GroupElement>(s: Seq<T::Model>) -> bool {
    forall|i: int, j: int|
        0 <= i < s.len() && 0 <= j < s.len() ==> s.contains(#[trigger] T::m_op(s[i], s[j]))
}

/// The element operation commutes on the sequence.
pub open spec fn seq_abelian<T: GroupElement>(s: Seq<T::Model>) -> bool {
    forall|i: int, j: int|
        0 <= i < s.len() && 0 <= j < s.len() ==> #[trigger] T::m_op(s[i], s[j]) == T::m_op(s[j], s[i])
}

/// `e` is a two-sided identity over the whole sequence.
pub open spec fn identity_in<T: GroupElement>(s: Seq<T::Model>, e: T::Model) -> bool {
    forall|i: int|
        0 <= i < s.len() ==> #[trigger] T::m_op(s[i], e) == s[i] && T::m_op(e, s[i]) == s[i]
}

/// Some member of the sequence is a two-sided identity.
pub open spec fn has_identity<T: GroupElement>(s: Seq<T::Model>) -> bool {
    exists|k: int| 0 <= k < s.len() && identity_in::<T>(s, #[trigger] s[k])
}

/// Every conjugate of a member of `h` by a member of `g` lies in `h`.
pub open spec fn seq_normal_in<T: GroupElement>(g: Seq<T::Model>, h: Seq<T::Model>) -> bool {
    forall|i: int, j: int|
        0 <= i < g.len() && 0 <= j < h.len()
            ==> h.contains(#[trigger] T::m_op(T::m_op(g[i], h[j]), T::m_inv(g[i])))
}

/// Elements of `g` share their domain with elements of `h`.
pub open spec fn cross_compat<T: GroupElement>(g: Seq<T::Model>, h: Seq<T::Model>) -> bool {
    forall|i: int, j: int|
        0 <= i < g.len() && 0 <= j < h.len() ==> #[trigger] T::m_compat(g[i], h[j])
}

// ---- exec helpers ----

/// Linear membership scan by element equality: does some element of `v`
/// have the model of `x`?
pub(crate) fn contains_el<T: GroupElement>(v: &Vec<T>, x: &T) -> (r: bool)
    ensures
        r == models(v@).contains(x.model()),
{
    let n = v.len();
    let mut i: usize = 0;
    while i < n
        invariant
            i <= n,
            n == v@.len(),
            forall|k: int| 0 <= k < i ==> models(v@)[k] != x.model(),
        decreases n - i,
    {
        if v[i].eq_el(x) {
            proof {
                assert(models(v@)[i as int] == x.model());
            }
            return true;
        }
        i = i + 1;
    }
    false
}

/// Appends the decimal digits of `v` to a string.
pub(crate) fn push_decimal(out: &mut String, v: u64) {
    if v == 0 {
        out.append("0");
        return;
    }
    let mut digits: Vec<u64> = Vec::new();
    let mut x: u64 = v;
    while x > 0
        invariant
            forall|k: int| 0 <= k < digits@.len() ==> #[trigger] digits@[k] < 10,
        decreases x,
    {
        digits.push(x % 10);
        proof {
            vstd::arithmetic::div_mod::lemma_mod_bound(x as int, 10);
            vstd::arithmetic::div_mod::lemma_div_decreases(x as int, 10);
            vstd::arithmetic::div_mod::lemma_div_pos_is_pos(x as int, 10);
        }
        x = x / 10;
    }
    let mut i: usize = digits.len();
    while i > 0
        invariant
            i <= digits@.len(),
            forall|k: int| 0 <= k < digits@.len() ==> #[trigger] digits@[k] < 10,
        decreases i,
    {
        i = i - 1;
        push_digit(out, digits[i]);
    }
}

/// Appends one decimal digit to a string.
pub(crate) fn push_digit(out: &mut String, d: u64)
    requires
        d < 10,
{
    if d == 0 {
        out.append("0");
    } else if d == 1 {
        out.append("1");
    } else if d == 2 {
        out.append("2");
    } else if d == 3 {
        out.append("3");
    } else if d == 4 {
        out.append("4");
    } else if d == 5 {
        out.append("5");
    } else if d == 6 {
        out.append("6");
    } else if d == 7 {
        out.append("7");
    } else if d == 8 {
        out.append("8");
    } else {
        out.append("9");
    }
}

/// The big-endian byte encoding of a u64, as used by canonical forms.
pub open spec fn spec_u64_be(v: u64) -> Seq<u8> {
    Seq::new(8, |i: int| ((v >> (((7 - i) * 8) as u64)) & 0xff) as u8)
}

/// Appends the big-endian bytes of `v` to `out`.
pub(crate) fn push_u64_be(out: &mut Vec<u8>, v: u64)
    ensures
        final(out)@ == old(out)@ + spec_u64_be(v),
{
    let mut i: usize = 0;
    while i < 8
        invariant
            i <= 8,
            out@ == old(out)@ + spec_u64_be(v).take(i as int),
        decreases 8 - i,
    {
        let shift: u64 = ((7 - i) * 8) as u64;
        out.push(((v >> shift) & 0xff) as u8);
        proof {
            assert(out@ =~= old(out)@ + spec_u64_be(v).take(i as int + 1));
        }
        i = i + 1;
    }
    proof {
        assert(spec_u64_be(v).take(8) =~= spec_u64_be(v));
    }
}

/// A generic group struct holding elements of type T.
#[derive(Debug, Clone)]
pub struct FiniteGroup<T: GroupElement> {
    elements: Vec<T>,
}

impl<T: GroupElement> View for FiniteGroup<T> {
    type V = Seq<T::Model>;

    closed spec fn view(&self) -> Seq<T::Model> {
        models(self.elements@)
    }
}

impl<T: GroupElement> FiniteGroup<T> {
    /// Returns a reference to the elements of the group.
    pub fn elements(&self) -> (r: &Vec<T>)
        ensures
            models(r@) == self@,
    {
        &self.elements
    }

    /// Creates a new group with the given elements; this is the unchecked
    /// constructor, and the caller pre-validates compatible domains.
    pub fn new(elements: Vec<T>) -> (r: Self)
        requires
            seq_wf::<T>(models(elements@)),
        ensures
            r@ == models(elements@),
    {
        FiniteGroup { elements }
    }

    /// Creates a new group with the given elements, checking closure.
    pub fn try_new(elements: Vec<T>) -> (r: Result<Self, AbsaglError>)
        requires
            seq_wf::<T>(models(elements@)),
        ensures
            r matches Ok(g) ==> g@ == models(elements@) && seq_closed::<T>(models(elements@)),
            r is Err <==> !seq_closed::<T>(models(elements@)),
            r matches Err(e) ==> e matches AbsaglError::Group(GroupError::NotClosed),
    {
        let group = FiniteGroup { elements };
        if !group.is_closed() {
            return Err(AbsaglError::Group(GroupError::NotClosed));
        }
        Ok(group)
    }

    /// Applies the group operation to two elements.
    pub fn operate(&self, a: &T, b: &T) -> (r: T)
        requires
            T::m_wf(a.model()),
            T::m_wf(b.model()),
            T::m_compat(a.model(), b.model()),
        ensures
            r.model() == T::m_op(a.model(), b.model()),
    {
        a.op(b)
    }

    /// Returns the inverse of an element.
    pub fn inverse(&self, element: &T) -> (r: T)
        requires
            T::m_wf(element.model()),
        ensures
            r.model() == T::m_inv(element.model()),
    {
        element.inverse()
    }

    /// Returns the order of the group: the number of elements it holds.
    pub fn order(&self) -> (r: usize)
        ensures
            r == self@.len(),
    {
        self.elements.len()
    }

    /// Searches the group for a two-sided identity element; reports
    /// `GroupError::NotFound` exactly when no member is one.
    pub fn identity(&self) -> (r: Result<T, GroupError>)
        requires
            seq_wf::<T>(self@),
        ensures
            r matches Ok(e) ==> self@.contains(e.model()) && identity_in::<T>(self@, e.model()),
            r is Ok <==> has_identity::<T>(self@),
            r matches Err(e) ==> e matches GroupError::NotFound,
    {
        let n = self.elements.len();
        let mut k: usize = 0;
        while k < n
            invariant
                k <= n,
                n == self@.len(),
                seq_wf::<T>(self@),
                self@ == models(self.elements@),
                forall|c: int| 0 <= c < k ==> !identity_in::<T>(self@, #[trigger] self@[c]),
            decreases n - k,
        {
            proof {
                assert(self@[k as int] == self.elements@[k as int].model());
                assert(T::m_wf(self@[k as int]));
                assert(forall|c: int| 0 <= c < self@.len()
                    ==> T::m_compat(#[trigger] self@[c], self@[k as int]));
            }
            if is_identity_over(&self.elements, &self.elements[k]) {
                proof {
                    assert(self@[k as int] == models(self.elements@)[k as int]);
                    assert(self@.contains(self@[k as int]));
                }
                return Ok(self.elements[k].clone_el());
            }
            k = k + 1;
        }
        Err(GroupError::NotFound)
    }

    /// Checks if the group is closed under the group operation: for all
    /// members a and b, a.op(b) is also a member.
    pub fn is_closed(&self) -> (r: bool)
        requires
            seq_wf::<T>(self@),
        ensures
            r == seq_closed::<T>(self@),
    {
        let n = self.elements.len();
        let mut i: usize = 0;
        while i < n
            invariant
                i <= n,
                n == self@.len(),
                seq_wf::<T>(self@),
                self@ == models(self.elements@),
                forall|a: int, b: int|
                    0 <= a < i && 0 <= b < n ==> self@.contains(#[trigger] T::m_op(self@[a], self@[b])),
            decreases n - i,
        {
            let mut j: usize = 0;
            while j < n
                invariant
                    i < n,
                    j <= n,
                    n == self@.len(),
                    seq_wf::<T>(self@),
                    self@ == models(self.elements@),
                    forall|b: int|
                        0 <= b < j ==> self@.contains(#[trigger] T::m_op(self@[i as int], self@[b])),
                decreases n - j,
            {
                proof {
                    assert(self@[i as int] == self.elements@[i as int].model());
                    assert(self@[j as int] == self.elements@[j as int].model());
                    assert(T::m_wf(self@[i as int]));
                    assert(T::m_wf(self@[j as int]));
                    assert(T::m_compat(self@[i as int], self@[j as int]));
                }
                let result = self.elements[i].op(&self.elements[j]);
                if !contains_el(&self.elements, &result) {
                    return false;
                }
                j = j + 1;
            }
            i = i + 1;
        }
        true
    }

    /// Checks if the group is abelian: for all members a and b,
    /// a.op(b) == b.op(a).
    pub fn is_abelian(&self) -> (r: bool)
        requires
            seq_wf::<T>(self@),
        ensures
            r == seq_abelian::<T>(self@),
    {
        let n = self.elements.len();
        let mut i: usize = 0;
        while i < n
            invariant
                i <= n,
                n == self@.len(),
                seq_wf::<T>(self@),
                self@ == models(self.elements@),
                forall|a: int, b: int|
                    0 <= a < i && 0 <= b < n ==> #[trigger] T::m_op(self@[a], self@[b]) == T::m_op(self@[b], self@[a]),
            decreases n - i,
        {
            let mut j: usize = 0;
            while j < n
                invariant
                    i < n,
                    j <= n,
                    n == self@.len(),
                    seq_wf::<T>(self@),
                    self@ == models(self.elements@),
                    forall|b: int|
                        0 <= b < j ==> #[trigger] T::m_op(self@[i as int], self@[b]) == T::m_op(self@[b], self@[i as int]),
                decreases n - j,
            {
                proof {
                    assert(self@[i as int] == self.elements@[i as int].model());
                    assert(self@[j as int] == self.elements@[j as int].model());
                    assert(T::m_wf(self@[i as int]));
                    assert(T::m_wf(self@[j as int]));
                    assert(T::m_compat(self@[i as int], self@[j as int]));
                    assert(T::m_compat(self@[j as int], self@[i as int]));
                }
                let left = self.elements[i].op(&self.elements[j]);
                let right = self.elements[j].op(&self.elements[i]);
                if !left.eq_el(&right) {
                    return false;
                }
                j = j + 1;
            }
            i = i + 1;
        }
        true
    }

    /// Checks if a given subgroup is normal in the group: every conjugate
    /// g * h * g^-1 of a subgroup member stays in the subgroup.
    pub fn is_normal(&self, subgroup: &FiniteGroup<T>) -> (r: bool)
        requires
            seq_wf::<T>(self@),
            seq_wf::<T>(subgroup@),
            cross_compat::<T>(self@, subgroup@),
        ensures
            r == seq_normal_in::<T>(self@, subgroup@),
    {
        let n = self.elements.len();
        let m = subgroup.elements.len();
        let mut i: usize = 0;
        while i < n
            invariant
                i <= n,
                n == self@.len(),
                m == subgroup@.len(),
                seq_wf::<T>(self@),
                seq_wf::<T>(subgroup@),
                cross_compat::<T>(self@, subgroup@),
                self@ == models(self.elements@),
                subgroup@ == models(subgroup.elements@),
                forall|a: int, b: int|
                    0 <= a < i && 0 <= b < m
                        ==> subgroup@.contains(#[trigger] T::m_op(T::m_op(self@[a], subgroup@[b]), T::m_inv(self@[a]))),
            decreases n - i,
        {
            let mut j: usize = 0;
            while j < m
                invariant
                    i < n,
                    j <= m,
                    n == self@.len(),
                    m == subgroup@.len(),
                    seq_wf::<T>(self@),
                    seq_wf::<T>(subgroup@),
                    cross_compat::<T>(self@, subgroup@),
                    self@ == models(self.elements@),
                    subgroup@ == models(subgroup.elements@),
                    forall|b: int|
                        0 <= b < j
                            ==> subgroup@.contains(
                                #[trigger] T::m_op(T::m_op(self@[i as int], subgroup@[b]), T::m_inv(self@[i as int])),
                            ),
                decreases m - j,
            {
                let g = &self.elements[i];
                let h = &subgroup.elements[j];
                proof {
                    assert(self@[i as int] == self.elements@[i as int].model());
                    assert(subgroup@[j as int] == subgroup.elements@[j as int].model());
                    assert(T::m_wf(self@[i as int]));
                    assert(T::m_wf(subgroup@[j as int]));
                    assert(T::m_compat(self@[i as int], subgroup@[j as int]));
                    T::lemma_op_wf(self@[i as int], subgroup@[j as int]);
                    T::lemma_inv_wf(self@[i as int]);
                    // g*h is compatible with g, and g^-1 is too; chain them.
                    T::lemma_compat_sym(T::m_inv(self@[i as int]), self@[i as int]);
                    T::lemma_compat_trans(
                        T::m_op(self@[i as int], subgroup@[j as int]),
                        self@[i as int],
                        T::m_inv(self@[i as int]),
                    );
                }
                let conjugate = g.op(h).op(&g.inverse());
                if !contains_el(&subgroup.elements, &conjugate) {
                    return false;
                }
                j = j + 1;
            }
            i = i + 1;
        }
        true
    }
}

/// Two model sequences denote one set: equal length and mutual membership.
pub open spec fn seq_set_eq<T: GroupElement>(a: Seq<T::Model>, b: Seq<T::Model>) -> bool {
    &&& a.len() == b.len()
    &&& forall|i: int| 0 <= i < a.len() ==> b.contains(#[trigger] a[i])
    &&& forall|i: int| 0 <= i < b.len() ==> a.contains(#[trigger] b[i])
}

impl<T: GroupElement> FiniteGroup<T> {
    /// Set equality of two groups: the same number of elements and the same
    /// element set, ignoring order.
    pub fn set_eq(&self, other: &FiniteGroup<T>) -> (r: bool)
        ensures
            r == seq_set_eq::<T>(self@, other@),
    {
        let n = self.elements.len();
        if n != other.elements.len() {
            return false;
        }
        let mut i: usize = 0;
        while i < n
            invariant
                i <= n,
                n == self@.len() == other@.len(),
                self@ == models(self.elements@),
                other@ == models(other.elements@),
                forall|k: int| 0 <= k < i ==> other@.contains(#[trigger] self@[k]),
            decreases n - i,
        {
            proof {
                assert(self@[i as int] == self.elements@[i as int].model());
            }
            if !contains_el(&other.elements, &self.elements[i]) {
                return false;
            }
            i = i + 1;
        }
        let mut j: usize = 0;
        while j < n
            invariant
                j <= n,
                n == self@.len() == other@.len(),
                self@ == models(self.elements@),
                other@ == models(other.elements@),
                forall|k: int| 0 <= k < n ==> other@.contains(#[trigger] self@[k]),
                forall|k: int| 0 <= k < j ==> self@.contains(#[trigger] other@[k]),
            decreases n - j,
        {
            proof {
                assert(other@[j as int] == other.elements@[j as int].model());
            }
            if !contains_el(&self.elements, &other.elements[j]) {
                return false;
            }
            j = j + 1;
        }
        true
    }
}

/// Checks that `e` acts as a two-sided identity over all of `v`.
fn is_identity_over<T: GroupElement>(v: &Vec<T>, e: &T) -> (r: bool)
    requires
        seq_wf::<T>(models(v@)),
        T::m_wf(e.model()),
        forall|i: int| 0 <= i < v@.len() ==> T::m_compat(#[trigger] models(v@)[i], e.model()),
    ensures
        r == identity_in::<T>(models(v@), e.model()),
{
    let n = v.len();
    let mut i: usize = 0;
    while i < n
        invariant
            i <= n,
            n == v@.len(),
            seq_wf::<T>(models(v@)),
            T::m_wf(e.model()),
            forall|k: int| 0 <= k < v@.len() ==> T::m_compat(#[trigger] models(v@)[k], e.model()),
            forall|k: int| 0 <= k < i ==> #[trigger] T::m_op(models(v@)[k], e.model()) == models(v@)[k],
            forall|k: int| 0 <= k < i ==> #[trigger] T::m_op(e.model(), models(v@)[k]) == models(v@)[k],
        decreases n - i,
    {
        let x = &v[i];
        proof {
            T::lemma_compat_sym(models(v@)[i as int], e.model());
        }
        let left = x.op(e);
        let right = e.op(x);
        if !left.eq_el(x) || !right.eq_el(x) {
            return false;
        }
        proof {
            assert(T::m_op(models(v@)[i as int], e.model()) == models(v@)[i as int]);
            assert(T::m_op(e.model(), models(v@)[i as int]) == models(v@)[i as int]);
        }
        i = i + 1;
    }
    true
}

} // verus!

verus! {

/// One row of the closure check: every product with the i-th member stays
/// inside the group.
pub open spec fn row_closed<T: GroupElement>(s: Seq<T::Model>, i: int) -> bool {
    forall|b: int| 0 <= b < s.len() ==> s.contains(#[trigger] T::m_op(s[i], s[b]))
}

/// One row of the abelian check: the i-th member commutes with every member.
pub open spec fn row_abelian<T: GroupElement>(s: Seq<T::Model>, i: int) -> bool {
    forall|b: int| 0 <= b < s.len() ==> #[trigger] T::m_op(s[i], s[b]) == T::m_op(s[b], s[i])
}

/// Checks one row of the closure property.
fn closed_row<T: GroupElement>(g: &FiniteGroup<T>, i: usize) -> (r: bool)
    requires
        seq_wf::<T>(g@),
        i < g@.len(),
    ensures
        r == row_closed::<T>(g@, i as int),
{
    let elems = g.elements();
    let n = elems.len();
    let mut j: usize = 0;
    while j < n
        invariant
            j <= n,
            i < n,
            n == g@.len(),
            seq_wf::<T>(g@),
            models(elems@) == g@,
            forall|b: int| 0 <= b < j ==> g@.contains(#[trigger] T::m_op(g@[i as int], g@[b])),
        decreases n - j,
    {
        proof {
            assert(g@[i as int] == elems@[i as int].model());
            assert(g@[j as int] == elems@[j as int].model());
        }
        let result = elems[i].op(&elems[j]);
        if !contains_el(elems, &result) {
            return false;
        }
        j = j + 1;
    }
    true
}

/// Checks one row of the abelian property.
fn abelian_row<T: GroupElement>(g: &FiniteGroup<T>, i: usize) -> (r: bool)
    requires
        seq_wf::<T>(g@),
        i < g@.len(),
    ensures
        r == row_abelian::<T>(g@, i as int),
{
    let elems = g.elements();
    let n = elems.len();
    let mut j: usize = 0;
    while j < n
        invariant
            j <= n,
            i < n,
            n == g@.len(),
            seq_wf::<T>(g@),
            models(elems@) == g@,
            forall|b: int| 0 <= b < j
                ==> #[trigger] T::m_op(g@[i as int], g@[b]) == T::m_op(g@[b], g@[i as int]),
        decreases n - j,
    {
        proof {
            assert(g@[i as int] == elems@[i as int].model());
            assert(g@[j as int] == elems@[j as int].model());
        }
        let left = elems[i].op(&elems[j]);
        let right = elems[j].op(&elems[i]);
        if !left.eq_el(&right) {
            return false;
        }
        j = j + 1;
    }
    true
}

/// Relies on rayon's ParallelIterator::all over the index range 0..n: it
/// returns true exactly when the closure returns true for every index, and
/// the closure only calls the verified row check `closed_row`.
#[verifier::external_body]
fn par_all_rows_closed<T: GroupElement>(g: &FiniteGroup<T>) -> (r: bool)
    requires
        seq_wf::<T>(g@),
    ensures
        r == (forall|i: int| 0 <= i < g@.len() ==> row_closed::<T>(g@, i)),
{
    (0..g.elements().len()).into_par_iter().all(|i| closed_row(g, i))
}

/// Relies on rayon's ParallelIterator::all over the index range 0..n: it
/// returns true exactly when the closure returns true for every index, and
/// the closure only calls the verified row check `abelian_row`.
#[verifier::external_body]
fn par_all_rows_abelian<T: GroupElement>(g: &FiniteGroup<T>) -> (r: bool)
    requires
        seq_wf::<T>(g@),
    ensures
        r == (forall|i: int| 0 <= i < g@.len() ==> row_abelian::<T>(g@, i)),
{
    (0..g.elements().len()).into_par_iter().all(|i| abelian_row(g, i))
}

/// A duplicate-free sequence drawn from another sequence is no longer.
pub proof fn lemma_distinct_subset_len<A>(sub: Seq<A>, sup: Seq<A>)
    requires
        sub.no_duplicates(),
        forall|i: int| 0 <= i < sub.len() ==> sup.contains(#[trigger] sub[i]),
    ensures
        sub.len() <= sup.len(),
{
    broadcast use vstd::seq_lib::group_seq_properties;
    sub.unique_seq_to_set();
    sup.lemma_cardinality_of_set();
    assert(sub.to_set().subset_of(sup.to_set())) by {
        assert forall|x: A| sub.to_set().contains(x) implies sup.to_set().contains(x) by {
            assert(sub.contains(x));
            assert(sup.contains(x));
        }
    }
    vstd::set_lib::lemma_len_subset(sub.to_set(), sup.to_set());
}

impl<T: GroupElement> FiniteGroup<T> {
    /// Checks closure with a data-parallel scan of the outer loop; each row
    /// is an independent, read-only unit of work.
    pub fn is_closed_parallel(&self) -> (r: bool)
        requires
            seq_wf::<T>(self@),
        ensures
            r == seq_closed::<T>(self@),
    {
        let r = par_all_rows_closed(self);
        proof {
            if r {
                assert forall|i: int, j: int|
                    0 <= i < self@.len() && 0 <= j < self@.len() implies
                    self@.contains(#[trigger] T::m_op(self@[i], self@[j])) by {
                    assert(row_closed::<T>(self@, i));
                }
            } else {
                if seq_closed::<T>(self@) {
                    assert forall|i: int| 0 <= i < self@.len() implies
                        row_closed::<T>(self@, i) by {
                    }
                }
            }
        }
        r
    }

    /// Checks commutativity with a data-parallel scan of the outer loop.
    pub fn is_abelian_parallel(&self) -> (r: bool)
        requires
            seq_wf::<T>(self@),
        ensures
            r == seq_abelian::<T>(self@),
    {
        let r = par_all_rows_abelian(self);
        proof {
            if r {
                assert forall|i: int, j: int|
                    0 <= i < self@.len() && 0 <= j < self@.len() implies
                    #[trigger] T::m_op(self@[i], self@[j]) == T::m_op(self@[j], self@[i]) by {
                    assert(row_abelian::<T>(self@, i));
                }
            } else {
                if seq_abelian::<T>(self@) {
                    assert forall|i: int| 0 <= i < self@.len() implies
                        row_abelian::<T>(self@, i) by {
                    }
                }
            }
        }
        r
    }

    /// Generates the normal subgroup produced by a generator set inside this
    /// closed group: the smallest superset of {identity} and the generators
    /// closed under the group operation. Fails when no identity exists, when
    /// the closure is the whole group, or when the closure is not normal.
    #[verifier::rlimit(100)]
    #[verifier::spinoff_prover]
    pub fn generate_normal_subgroup(&self, generators: Vec<T>) -> (r: Result<
        FiniteGroup<T>,
        AbsaglError,
    >)
        requires
            seq_wf::<T>(self@),
            seq_closed::<T>(self@),
            forall|i: int| 0 <= i < generators@.len()
                ==> self@.contains((#[trigger] generators@[i]).model()),
        ensures
            ({
                let base = models(generators@).to_set().insert(the_identity::<T>(self@));
                let gen = Set::new(|x: T::Model| in_generated::<T>(base, x));
                &&& (r matches Err(AbsaglError::Group(GroupError::NotFound))
                    <==> !has_identity::<T>(self@))
                &&& (has_identity::<T>(self@) ==> gen.finite())
                &&& (r matches Err(AbsaglError::Group(GroupError::NotSubgroup))
                    <==> has_identity::<T>(self@) && gen.len() == self@.len())
                &&& (r matches Err(AbsaglError::Group(GroupError::NotNormalSubgroup))
                    <==> (has_identity::<T>(self@) && gen.len() != self@.len()
                        && !generated_normal::<T>(self@, base)))
                &&& (r is Ok <==> (has_identity::<T>(self@) && gen.len() != self@.len()
                    && generated_normal::<T>(self@, base)))
                &&& (r matches Ok(h) ==> ({
                    &&& h@.no_duplicates()
                    &&& forall|m: T::Model| h@.contains(m) <==> in_generated::<T>(base, m)
                    &&& seq_wf::<T>(h@)
                    &&& seq_closed::<T>(h@)
                    &&& seq_normal_in::<T>(self@, h@)
                    &&& h@.len() != self@.len()
                    &&& forall|i: int| 0 <= i < h@.len() ==> self@.contains(#[trigger] h@[i])
                    &&& forall|i: int| 0 <= i < generators@.len()
                        ==> h@.contains((#[trigger] generators@[i]).model())
                }))
            }),
    {
        let e = match self.identity() {
            Ok(e) => e,
            Err(_) => {
                return Err(AbsaglError::Group(GroupError::NotFound));
            },
        };
        proof {
            // The found identity is the unique two-sided identity member.
            let ec = the_identity::<T>(self@);
            assert(self@.contains(ec) && identity_in::<T>(self@, ec));
            let i1 = choose|i: int| 0 <= i < self@.len() && self@[i] == e.model();
            let i2 = choose|i: int| 0 <= i < self@.len() && self@[i] == ec;
            assert(T::m_op(self@[i1], ec) == self@[i1]);
            assert(T::m_op(e.model(), self@[i2]) == self@[i2]);
            assert(e.model() == ec);
        }
        let ghost base = models(generators@).to_set().insert(the_identity::<T>(self@));
        let mut seen: Vec<T> = Vec::new();
        seen.push(e);
        let ghost gens = generators@;
        let mut k: usize = 0;
        proof {
            assert(models(seen@)[0] == seen@[0].model());
            lemma_generated_base::<T>(base, the_identity::<T>(self@));
        }
        while k < generators.len()
            invariant
                k <= gens.len(),
                gens == generators@,
                seq_wf::<T>(self@),
                base == models(gens).to_set().insert(the_identity::<T>(self@)),
                forall|i: int| 0 <= i < gens.len()
                    ==> self@.contains((#[trigger] gens[i]).model()),
                self@.contains(the_identity::<T>(self@)),
                models(seen@).no_duplicates(),
                forall|i: int| 0 <= i < models(seen@).len()
                    ==> self@.contains(#[trigger] models(seen@)[i]),
                forall|i: int| 0 <= i < models(seen@).len()
                    ==> in_generated::<T>(base, #[trigger] models(seen@)[i]),
                models(seen@).contains(the_identity::<T>(self@)),
                forall|i: int| 0 <= i < k
                    ==> models(seen@).contains((#[trigger] gens[i]).model()),
            decreases generators@.len() - k,
        {
            let g = &generators[k];
            if !contains_el(&seen, g) {
                let ghost old_models = models(seen@);
                proof {
                    lemma_element_wf::<T>(self@, g.model());
                    assert(base.contains(gens[k as int].model())) by {
                        assert(models(gens).contains(gens[k as int].model())) by {
                            assert(models(gens)[k as int] == gens[k as int].model());
                        }
                        broadcast use vstd::seq_lib::group_seq_properties;
                    }
                    lemma_generated_base::<T>(base, gens[k as int].model());
                }
                seen.push(g.clone_el());
                proof {
                    assert(models(seen@) =~= old_models.push(gens[k as int].model()));
                    assert(models(seen@)[old_models.len() as int] == gens[k as int].model());
                    assert forall|m: T::Model| old_models.contains(m) implies
                        models(seen@).contains(m) by {
                        let idx = choose|idx: int| 0 <= idx < old_models.len()
                            && old_models[idx] == m;
                        assert(models(seen@)[idx] == m);
                    }
                }
            }
            k = k + 1;
        }

        proof {
            assert forall|x: T::Model| base.contains(x) implies
                models(seen@).contains(x) by {
                if x != the_identity::<T>(self@) {
                    assert(models(gens).contains(x));
                    let idx = choose|idx: int| 0 <= idx < models(gens).len()
                        && models(gens)[idx] == x;
                    assert(models(gens)[idx] == gens[idx].model());
                    assert(models(seen@).contains(gens[idx].model()));
                }
            }
        }
        closure_rounds(self, &mut seen, Ghost(base));
        finish_normal_subgroup(self, seen, Ghost(base), Ghost(gens))
    }

    /// If the group is abelian, computes its decomposition into prime-power
    /// orders: the prime factorization of |G|.
    pub fn abelian_decomposition(&self) -> (r: Result<AbelianDecomposition, GroupError>)
        requires
            seq_wf::<T>(self@),
            self@.len() <= u64::MAX,
        ensures
            r matches Ok(d) ==> ({
                &&& seq_abelian::<T>(self@)
                &&& self@.len() >= 1
                &&& utils::factors_product(d.prime_power_orders@) == (if self@.len() <= 1 {
                    1nat
                } else {
                    self@.len() as nat
                })
                &&& forall|i: int| 0 <= i < d.prime_power_orders@.len()
                    ==> utils::is_prime(#[trigger] d.prime_power_orders@[i].0 as nat)
                        && d.prime_power_orders@[i].1 >= 1
                &&& forall|i: int, j: int| 0 <= i < j < d.prime_power_orders@.len()
                    ==> d.prime_power_orders@[i].0 < d.prime_power_orders@[j].0
            }),
            r is Ok <==> seq_abelian::<T>(self@) && self@.len() >= 1,
            r matches Err(GroupError::NotAbelian) <==> !seq_abelian::<T>(self@),
            r matches Err(GroupError::NotFound)
                <==> (seq_abelian::<T>(self@) && self@.len() == 0),
    {
        if !self.is_abelian() {
            return Err(GroupError::NotAbelian);
        }
        let order = self.elements.len() as u64;
        if order == 0 {
            return Err(GroupError::NotFound);
        }
        let prime_factors = utils::prime_factorization(order);
        Ok(AbelianDecomposition { prime_power_orders: prime_factors })
    }
}

/// A member of a well-formed model sequence is itself well formed.
pub proof fn lemma_element_wf<T: GroupElement>(s: Seq<T::Model>, m: T::Model)
    requires
        seq_wf::<T>(s),
        s.contains(m),
    ensures
        T::m_wf(m),
{
    let idx = choose|idx: int| 0 <= idx < s.len() && s[idx] == m;
    assert(T::m_wf(s[idx]));
}

/// Members of a well-formed model sequence form a well-formed sequence.
pub proof fn lemma_members_seq_wf<T: GroupElement>(sup: Seq<T::Model>, sub: Seq<T::Model>)
    requires
        seq_wf::<T>(sup),
        forall|i: int| 0 <= i < sub.len() ==> sup.contains(#[trigger] sub[i]),
    ensures
        seq_wf::<T>(sub),
{
    assert forall|i: int| 0 <= i < sub.len() implies T::m_wf(#[trigger] sub[i]) by {
        lemma_element_wf::<T>(sup, sub[i]);
    }
    assert forall|i: int, j: int|
        0 <= i < sub.len() && 0 <= j < sub.len() implies #[trigger] T::m_compat(sub[i], sub[j]) by {
        let a = choose|a: int| 0 <= a < sup.len() && sup[a] == sub[i];
        let b = choose|b: int| 0 <= b < sup.len() && sup[b] == sub[j];
        assert(T::m_compat(sup[a], sup[b]));
    }
}

/// The closure of a generated set is normal in the ambient group:
/// conjugating any closure member by any ambient member stays in the
/// closure.
pub open spec fn generated_normal<T: GroupElement>(g: Seq<T::Model>, base: Set<T::Model>) -> bool {
    forall|i: int, x: T::Model|
        #![trigger g[i], in_generated::<T>(base, x)]
        0 <= i < g.len() && in_generated::<T>(base, x)
            ==> in_generated::<T>(base, T::m_op(T::m_op(g[i], x), T::m_inv(g[i])))
}

/// Decides the outcome once the closure has been computed: rejects a
/// closure as large as the whole group, re-checks its closure through the
/// checked constructor, and checks normality.
#[verifier::rlimit(100)]
#[verifier::spinoff_prover]
fn finish_normal_subgroup<T: GroupElement>(
    ambient: &FiniteGroup<T>,
    seen: Vec<T>,
    Ghost(base): Ghost<Set<T::Model>>,
    Ghost(gens): Ghost<Seq<T>>,
) -> (r: Result<FiniteGroup<T>, AbsaglError>)
    requires
        seq_wf::<T>(ambient@),
        models(seen@).no_duplicates(),
        forall|i: int| 0 <= i < models(seen@).len()
            ==> ambient@.contains(#[trigger] models(seen@)[i]),
        seq_closed::<T>(models(seen@)),
        forall|m: T::Model| models(seen@).contains(m) <==> in_generated::<T>(base, m),
        forall|i: int| 0 <= i < gens.len()
            ==> models(seen@).contains((#[trigger] gens[i]).model()),
    ensures
        ({
            let gen = Set::new(|x: T::Model| in_generated::<T>(base, x));
            &&& gen.finite()
            &&& !(r matches Err(AbsaglError::Group(GroupError::NotFound)))
            &&& (r matches Err(AbsaglError::Group(GroupError::NotSubgroup))
                <==> gen.len() == ambient@.len())
            &&& (r matches Err(AbsaglError::Group(GroupError::NotNormalSubgroup))
                <==> (gen.len() != ambient@.len() && !generated_normal::<T>(ambient@, base)))
            &&& (r is Ok <==> (gen.len() != ambient@.len()
                && generated_normal::<T>(ambient@, base)))
            &&& (r matches Ok(h) ==> ({
                &&& h@.no_duplicates()
                &&& forall|m: T::Model| h@.contains(m) <==> in_generated::<T>(base, m)
                &&& seq_wf::<T>(h@)
                &&& seq_closed::<T>(h@)
                &&& seq_normal_in::<T>(ambient@, h@)
                &&& h@.len() != ambient@.len()
                &&& forall|i: int| 0 <= i < h@.len() ==> ambient@.contains(#[trigger] h@[i])
                &&& forall|i: int| 0 <= i < gens.len()
                    ==> h@.contains((#[trigger] gens[i]).model())
            }))
        }),
{
    let ghost gen = Set::new(|x: T::Model| in_generated::<T>(base, x));
    proof {
        assert(gen =~= models(seen@).to_set()) by {
            broadcast use vstd::seq_lib::group_seq_properties;
            assert forall|x: T::Model| gen.contains(x) implies
                models(seen@).to_set().contains(x) by {
                assert(models(seen@).contains(x));
            }
            assert forall|x: T::Model| models(seen@).to_set().contains(x) implies
                gen.contains(x) by {
                assert(models(seen@).contains(x));
            }
        }
        models(seen@).unique_seq_to_set();
        assert(gen.finite() && gen.len() == models(seen@).len()) by {
            broadcast use vstd::seq_lib::seq_to_set_is_finite;
        }
    }
    if seen.len() == ambient.elements().len() {
        return Err(AbsaglError::Group(GroupError::NotSubgroup));
    }
    proof {
        lemma_members_seq_wf::<T>(ambient@, models(seen@));
    }
    let ghost seen_models = models(seen@);
    let subgroup = match FiniteGroup::try_new(seen) {
        Ok(g) => g,
        Err(e2) => {
            proof {
                assert(false);
            }
            return Err(e2);
        },
    };
    proof {
        assert forall|i: int, j: int|
            0 <= i < ambient@.len() && 0 <= j < subgroup@.len() implies
            #[trigger] T::m_compat(ambient@[i], subgroup@[j]) by {
            let idx = choose|idx: int| 0 <= idx < ambient@.len()
                && ambient@[idx] == subgroup@[j];
            assert(T::m_compat(ambient@[i], ambient@[idx]));
        }
    }
    if !ambient.is_normal(&subgroup) {
        proof {
            lemma_normal_bridge::<T>(ambient@, subgroup@, base);
        }
        return Err(AbsaglError::Group(GroupError::NotNormalSubgroup));
    }
    proof {
        lemma_normal_bridge::<T>(ambient@, subgroup@, base);
    }
    Ok(subgroup)
}

/// A member list that is exactly the closure is normal in the sequence
/// sense iff the closure is normal in the set sense.
proof fn lemma_normal_bridge<T: GroupElement>(
    g: Seq<T::Model>,
    h: Seq<T::Model>,
    base: Set<T::Model>,
)
    requires
        forall|m: T::Model| h.contains(m) <==> in_generated::<T>(base, m),
    ensures
        seq_normal_in::<T>(g, h) <==> generated_normal::<T>(g, base),
{
    if seq_normal_in::<T>(g, h) {
        assert forall|i: int, x: T::Model|
            #![trigger g[i], in_generated::<T>(base, x)]
            0 <= i < g.len() && in_generated::<T>(base, x) implies
            in_generated::<T>(base, T::m_op(T::m_op(g[i], x), T::m_inv(g[i]))) by {
            assert(h.contains(x));
            let j = choose|j: int| 0 <= j < h.len() && h[j] == x;
            assert(h.contains(T::m_op(T::m_op(g[i], h[j]), T::m_inv(g[i]))));
        }
    }
    if generated_normal::<T>(g, base) {
        assert forall|i: int, j: int|
            0 <= i < g.len() && 0 <= j < h.len() implies
            h.contains(#[trigger] T::m_op(T::m_op(g[i], h[j]), T::m_inv(g[i]))) by {
            assert(h.contains(h[j]));
            assert(in_generated::<T>(base, h[j]));
        }
    }
}

/// Repeated closing rounds: multiplies every pair of current members and
/// records new products until a full round adds nothing; the result is
/// exactly the closure of the starting members.
fn closure_rounds<T: GroupElement>(
    ambient: &FiniteGroup<T>,
    seen: &mut Vec<T>,
    Ghost(base): Ghost<Set<T::Model>>,
)
    requires
        seq_wf::<T>(ambient@),
        seq_closed::<T>(ambient@),
        models(old(seen)@).no_duplicates(),
        forall|i: int| 0 <= i < models(old(seen)@).len()
            ==> ambient@.contains(#[trigger] models(old(seen)@)[i]),
        forall|i: int| 0 <= i < models(old(seen)@).len()
            ==> in_generated::<T>(base, #[trigger] models(old(seen)@)[i]),
        forall|x: T::Model| base.contains(x) ==> models(old(seen)@).contains(x),
    ensures
        models(final(seen)@).no_duplicates(),
        forall|i: int| 0 <= i < models(final(seen)@).len()
            ==> ambient@.contains(#[trigger] models(final(seen)@)[i]),
        seq_closed::<T>(models(final(seen)@)),
        forall|m: T::Model| models(final(seen)@).contains(m) <==> in_generated::<T>(base, m),
{
    loop
        invariant
            seq_wf::<T>(ambient@),
            seq_closed::<T>(ambient@),
            models(seen@).no_duplicates(),
            forall|i: int| 0 <= i < models(seen@).len()
                ==> ambient@.contains(#[trigger] models(seen@)[i]),
            forall|i: int| 0 <= i < models(seen@).len()
                ==> in_generated::<T>(base, #[trigger] models(seen@)[i]),
            forall|x: T::Model| base.contains(x) ==> models(seen@).contains(x),
        ensures
            seq_closed::<T>(models(seen@)),
        decreases ambient@.len() + 1 - models(seen@).len(),
    {
        proof {
            lemma_distinct_subset_len(models(seen@), ambient@);
        }
        let n0 = seen.len();
        let ghost snap = models(seen@);
        let mut i: usize = 0;
        while i < n0
            invariant
                i <= n0,
                n0 == snap.len(),
                seq_wf::<T>(ambient@),
                seq_closed::<T>(ambient@),
                models(seen@).len() >= n0,
                forall|t: int| 0 <= t < n0 ==> #[trigger] models(seen@)[t] == snap[t],
                models(seen@).no_duplicates(),
                forall|t: int| 0 <= t < models(seen@).len()
                    ==> ambient@.contains(#[trigger] models(seen@)[t]),
                forall|t: int| 0 <= t < models(seen@).len()
                    ==> in_generated::<T>(base, #[trigger] models(seen@)[t]),
                forall|x: T::Model| base.contains(x) ==> models(seen@).contains(x),
                forall|a: int, b: int|
                    0 <= a < i && 0 <= b < n0
                        ==> models(seen@).contains(#[trigger] T::m_op(snap[a], snap[b])),
            decreases n0 - i,
        {
            let mut j: usize = 0;
            while j < n0
                invariant
                    i < n0,
                    j <= n0,
                    n0 == snap.len(),
                    seq_wf::<T>(ambient@),
                    seq_closed::<T>(ambient@),
                    models(seen@).len() >= n0,
                    forall|t: int| 0 <= t < n0 ==> #[trigger] models(seen@)[t] == snap[t],
                    models(seen@).no_duplicates(),
                    forall|t: int| 0 <= t < models(seen@).len()
                        ==> ambient@.contains(#[trigger] models(seen@)[t]),
                    forall|t: int| 0 <= t < models(seen@).len()
                        ==> in_generated::<T>(base, #[trigger] models(seen@)[t]),
                    forall|x: T::Model| base.contains(x) ==> models(seen@).contains(x),
                    forall|a: int, b: int|
                        0 <= a < i && 0 <= b < n0
                            ==> models(seen@).contains(#[trigger] T::m_op(snap[a], snap[b])),
                    forall|b: int|
                        0 <= b < j
                            ==> models(seen@).contains(
                                #[trigger] T::m_op(snap[i as int], snap[b])),
                decreases n0 - j,
            {
                proof {
                    assert(models(seen@)[i as int] == seen@[i as int].model());
                    assert(models(seen@)[j as int] == seen@[j as int].model());
                    lemma_element_wf::<T>(ambient@, snap[i as int]);
                    lemma_element_wf::<T>(ambient@, snap[j as int]);
                    let a = choose|a: int| 0 <= a < ambient@.len()
                        && ambient@[a] == snap[i as int];
                    let b = choose|b: int| 0 <= b < ambient@.len()
                        && ambient@[b] == snap[j as int];
                    assert(T::m_compat(ambient@[a], ambient@[b]));
                    assert(ambient@.contains(T::m_op(ambient@[a], ambient@[b])));
                }
                let product = seen[i].op(&seen[j]);
                if !contains_el(seen, &product) {
                    let ghost old_models = models(seen@);
                    let ghost pm = product.model();
                    proof {
                        lemma_generated_op::<T>(base, snap[i as int], snap[j as int]);
                    }
                    seen.push(product);
                    proof {
                        assert(models(seen@) =~= old_models.push(pm));
                        assert forall|m: T::Model| old_models.contains(m) implies
                            models(seen@).contains(m) by {
                            let idx = choose|idx: int| 0 <= idx < old_models.len()
                                && old_models[idx] == m;
                            assert(models(seen@)[idx] == m);
                        }
                        assert(models(seen@)[old_models.len() as int] == pm);
                    }
                }
                j = j + 1;
            }
            i = i + 1;
        }
        if seen.len() == n0 {
            proof {
                assert(models(seen@) =~= snap);
                assert forall|a: int, b: int|
                    0 <= a < models(seen@).len() && 0 <= b < models(seen@).len() implies
                    models(seen@).contains(
                        #[trigger] T::m_op(models(seen@)[a], models(seen@)[b])) by {
                    assert(models(seen@).contains(T::m_op(snap[a], snap[b])));
                }
            }
            break;
        }
        proof {
            lemma_distinct_subset_len(models(seen@), ambient@);
        }
    }
    proof {
        assert forall|m: T::Model| in_generated::<T>(base, m) implies
            models(seen@).contains(m) by {
            lemma_generated_minimal::<T>(base, models(seen@), m);
        }
        assert forall|m: T::Model| models(seen@).contains(m) implies
            in_generated::<T>(base, m) by {
            let idx = choose|idx: int| 0 <= idx < models(seen@).len()
                && models(seen@)[idx] == m;
        }
    }
}

/// The decomposition of a finite abelian group into a direct product of
/// cyclic groups of prime-power order.
#[derive(Debug, PartialEq, Eq)]
pub struct AbelianDecomposition {
    pub prime_power_orders: Vec<(u64, u32)>,
}

impl AbelianDecomposition {
    /// The order of the group this decomposition describes: the product of
    /// its prime powers.
    pub fn order(&self) -> (r: u64)
        requires
            utils::factors_product(self.prime_power_orders@) <= u64::MAX,
            forall|i: int| 0 <= i < self.prime_power_orders@.len()
                ==> (#[trigger] self.prime_power_orders@[i]).0 >= 1,
        ensures
            r as nat == utils::factors_product(self.prime_power_orders@),
    {
        let n = self.prime_power_orders.len();
        let mut acc: u64 = 1;
        let mut i: usize = 0;
        proof {
            assert(self.prime_power_orders@.take(0) =~= Seq::<(u64, u32)>::empty());
            lemma_factors_product_mono(self.prime_power_orders@, 0);
        }
        while i < n
            invariant
                i <= n,
                n == self.prime_power_orders@.len(),
                utils::factors_product(self.prime_power_orders@) <= u64::MAX,
                forall|k: int| 0 <= k < n
                    ==> (#[trigger] self.prime_power_orders@[k]).0 >= 1,
                acc as nat == utils::factors_product(self.prime_power_orders@.take(i as int)),
            decreases n - i,
        {
            let (p, k) = self.prime_power_orders[i];
            proof {
                lemma_factors_product_mono(self.prime_power_orders@, i as int);
                lemma_factors_product_mono(self.prime_power_orders@, i as int + 1);
                assert(self.prime_power_orders@.take(i as int + 1).drop_last()
                    =~= self.prime_power_orders@.take(i as int));
                assert(self.prime_power_orders@.take(i as int + 1).last()
                    == self.prime_power_orders@[i as int]);
                lemma_factors_entry_pos(self.prime_power_orders@, i as int);
            }
            proof {
                assert(utils::pow_nat(p as nat, k as nat) <= u64::MAX) by (nonlinear_arith)
                    requires
                        utils::factors_product(self.prime_power_orders@.take(i as int + 1))
                            == utils::factors_product(self.prime_power_orders@.take(i as int))
                                * utils::pow_nat(p as nat, k as nat),
                        utils::factors_product(self.prime_power_orders@.take(i as int)) >= 1,
                        utils::factors_product(self.prime_power_orders@.take(i as int + 1))
                            <= u64::MAX,
                ;
            }
            let pw = pow_u64(p, k);
            proof {
                assert((acc * pw) as nat
                    == utils::factors_product(self.prime_power_orders@.take(i as int + 1)));
            }
            acc = acc * pw;
            i = i + 1;
        }
        proof {
            assert(self.prime_power_orders@.take(n as int) =~= self.prime_power_orders@);
        }
        acc
    }
}

/// A prefix product of positive factors divides into the full product.
proof fn lemma_factors_product_mono(s: Seq<(u64, u32)>, i: int)
    requires
        0 <= i <= s.len(),
        forall|k: int| 0 <= k < s.len() ==> (#[trigger] s[k]).0 >= 1,
    ensures
        utils::factors_product(s.take(i)) >= 1,
        utils::factors_product(s.take(i)) <= utils::factors_product(s),
    decreases s.len() - i, s.len(),
{
    if i == s.len() {
        assert(s.take(i) =~= s);
        lemma_factors_product_pos(s);
    } else {
        lemma_factors_product_mono(s, i + 1);
        assert(s.take(i + 1).drop_last() =~= s.take(i));
        assert(s.take(i + 1).last() == s[i]);
        lemma_factors_product_pos(s.take(i));
        utils::lemma_pow_pos(s[i].0 as nat, s[i].1 as nat);
        assert(utils::factors_product(s.take(i + 1))
            == utils::factors_product(s.take(i)) * utils::pow_nat(s[i].0 as nat, s[i].1 as nat));
        assert(utils::factors_product(s.take(i))
            <= utils::factors_product(s.take(i)) * utils::pow_nat(s[i].0 as nat, s[i].1 as nat))
            by (nonlinear_arith)
            requires
                utils::pow_nat(s[i].0 as nat, s[i].1 as nat) >= 1,
                utils::factors_product(s.take(i)) >= 0,
        ;
    }
}

/// A product of positive prime powers is positive.
proof fn lemma_factors_product_pos(s: Seq<(u64, u32)>)
    requires
        forall|k: int| 0 <= k < s.len() ==> (#[trigger] s[k]).0 >= 1,
    ensures
        utils::factors_product(s) >= 1,
    decreases s.len(),
{
    if s.len() > 0 {
        lemma_factors_product_pos(s.drop_last());
        utils::lemma_pow_pos(s.last().0 as nat, s.last().1 as nat);
        assert(utils::factors_product(s)
            == utils::factors_product(s.drop_last())
                * utils::pow_nat(s.last().0 as nat, s.last().1 as nat));
        assert(utils::factors_product(s.drop_last())
            * utils::pow_nat(s.last().0 as nat, s.last().1 as nat) >= 1) by (nonlinear_arith)
            requires
                utils::factors_product(s.drop_last()) >= 1,
                utils::pow_nat(s.last().0 as nat, s.last().1 as nat) >= 1,
        ;
    }
}

proof fn lemma_factors_entry_pos(s: Seq<(u64, u32)>, i: int)
    requires
        0 <= i < s.len(),
        forall|k: int| 0 <= k < s.len() ==> (#[trigger] s[k]).0 >= 1,
    ensures
        (s[i]).0 >= 1,
{
}

/// Raises a base to a power, within the u64 range the caller guarantees.
fn pow_u64(b: u64, e: u32) -> (r: u64)
    requires
        b >= 1,
        utils::pow_nat(b as nat, e as nat) <= u64::MAX,
    ensures
        r as nat == utils::pow_nat(b as nat, e as nat),
{
    let mut acc: u64 = 1;
    let mut i: u32 = 0;
    while i < e
        invariant
            i <= e,
            b >= 1,
            utils::pow_nat(b as nat, e as nat) <= u64::MAX,
            acc as nat == utils::pow_nat(b as nat, i as nat),
        decreases e - i,
    {
        proof {
            utils::lemma_pow_mono_count(b as nat, (i + 1) as nat, e as nat);
            assert(utils::pow_nat(b as nat, (i + 1) as nat)
                == b as nat * utils::pow_nat(b as nat, i as nat)) by {
                utils::lemma_pow_unfold_front(b as nat, (i + 1) as nat);
            }
            assert(b as nat * utils::pow_nat(b as nat, i as nat)
                == utils::pow_nat(b as nat, i as nat) * b as nat) by (nonlinear_arith);
        }
        acc = acc * b;
        i = i + 1;
    }
    acc
}

} // verus!

verus! {

/// The direct product group: a list of cyclic factors Z_{p^k}.
#[derive(Debug, Clone)]
pub struct DirectProductGroup {
    pub factors: Vec<FiniteGroup<modulo::Modulo<Additive>>>,
}

impl DirectProductGroup {
    /// Builds the direct product of the cyclic groups named by an abelian
    /// decomposition; the prime powers must fit the machine word.
    pub fn from_decomposition(decomposition: &AbelianDecomposition) -> (r: Result<
        Self,
        AbsaglError,
    >)
        requires
            forall|i: int| 0 <= i < decomposition.prime_power_orders@.len()
                ==> (#[trigger] decomposition.prime_power_orders@[i]).0 >= 1
                    && utils::pow_nat(decomposition.prime_power_orders@[i].0 as nat,
                        decomposition.prime_power_orders@[i].1 as nat) <= usize::MAX,
        ensures
            r is Ok,
            r matches Ok(g) ==> ({
                &&& g.factors@.len() == decomposition.prime_power_orders@.len()
                &&& forall|i: int| 0 <= i < g.factors@.len()
                    ==> (#[trigger] g.factors@[i])@ == <Additive as modulo::ModuloOperation>::spec_elements(
                        utils::pow_nat(decomposition.prime_power_orders@[i].0 as nat,
                            decomposition.prime_power_orders@[i].1 as nat) as u64)
            }),
    {
        let mut factors: Vec<FiniteGroup<modulo::Modulo<Additive>>> = Vec::new();
        let n = decomposition.prime_power_orders.len();
        let mut i: usize = 0;
        while i < n
            invariant
                i <= n,
                n == decomposition.prime_power_orders@.len(),
                forall|k: int| 0 <= k < n
                    ==> (#[trigger] decomposition.prime_power_orders@[k]).0 >= 1
                        && utils::pow_nat(decomposition.prime_power_orders@[k].0 as nat,
                            decomposition.prime_power_orders@[k].1 as nat) <= usize::MAX,
                factors@.len() == i,
                forall|k: int| 0 <= k < i
                    ==> (#[trigger] factors@[k])@ == <Additive as modulo::ModuloOperation>::spec_elements(
                        utils::pow_nat(decomposition.prime_power_orders@[k].0 as nat,
                            decomposition.prime_power_orders@[k].1 as nat) as u64),
            decreases n - i,
        {
            let (p, k) = decomposition.prime_power_orders[i];
            proof {
                utils::lemma_pow_mono_count(p as nat, 0, k as nat);
            }
            let order = pow_u64(p, k);
            let cyclic_group = match GroupGenerators::generate_modulo_group_add(order as usize) {
                Ok(g) => g,
                Err(e) => {
                    proof {
                        assert(false);
                    }
                    return Err(e);
                },
            };
            factors.push(cyclic_group);
            i = i + 1;
        }
        Ok(DirectProductGroup { factors })
    }

    /// The identity element of the direct product: each factor's identity.
    pub fn identity(&self) -> (r: directproduct::DirectProductElement)
        requires
            forall|i: int| 0 <= i < self.factors@.len()
                ==> seq_wf::<modulo::Modulo<Additive>>((#[trigger] self.factors@[i])@)
                    && has_identity::<modulo::Modulo<Additive>>(self.factors@[i]@),
        ensures
            r.components@.len() == self.factors@.len(),
            forall|i: int| 0 <= i < self.factors@.len()
                ==> identity_in::<modulo::Modulo<Additive>>((#[trigger] self.factors@[i])@,
                    r.components@[i]),
    {
        let mut components: Vec<modulo::Modulo<Additive>> = Vec::new();
        let n = self.factors.len();
        let mut i: usize = 0;
        while i < n
            invariant
                i <= n,
                n == self.factors@.len(),
                forall|k: int| 0 <= k < n
                    ==> seq_wf::<modulo::Modulo<Additive>>((#[trigger] self.factors@[k])@)
                        && has_identity::<modulo::Modulo<Additive>>(self.factors@[k]@),
                components@.len() == i,
                forall|k: int| 0 <= k < i
                    ==> identity_in::<modulo::Modulo<Additive>>((#[trigger] self.factors@[k])@,
                        components@[k]),
            decreases n - i,
        {
            let e = match self.factors[i].identity() {
                Ok(e) => e,
                Err(_) => {
                    proof {
                        assert(false);
                    }
                    return directproduct::DirectProductElement { components };
                },
            };
            components.push(e);
            i = i + 1;
        }
        directproduct::DirectProductElement { components }
    }
}

/// A collection of group generators, one for each element family.
pub struct GroupGenerators;

impl GroupGenerators {
    /// Generates the additive group of residues mod n.
    pub fn generate_modulo_group_add(n: usize) -> (r: Result<
        FiniteGroup<modulo::Modulo<Additive>>,
        AbsaglError,
    >)
        ensures
            r is Ok,
            r matches Ok(g) ==> ({
                &&& g@ == <Additive as modulo::ModuloOperation>::spec_elements(n as u64)
                &&& seq_wf::<modulo::Modulo<Additive>>(g@)
                &&& seq_closed::<modulo::Modulo<Additive>>(g@)
            }),
    {
        proof {
            modulo::lemma_additive_group_laws(n as u64);
        }
        let elements = match modulo::Modulo::<Additive>::generate_group(n as u64) {
            Ok(v) => v,
            Err(e) => {
                proof {
                    assert(false);
                }
                return Err(e);
            },
        };
        match FiniteGroup::try_new(elements) {
            Ok(g) => Ok(g),
            Err(e) => {
                proof {
                    assert(false);
                }
                Err(e)
            },
        }
    }

    /// Generates the multiplicative group of units mod n.
    pub fn generate_modulo_group_mul(n: usize) -> (r: Result<
        FiniteGroup<modulo::Modulo<Multiplicative>>,
        AbsaglError,
    >)
        ensures
            r is Ok,
            r matches Ok(g) ==> ({
                &&& g@ == <Multiplicative as modulo::ModuloOperation>::spec_elements(n as u64)
                &&& seq_wf::<modulo::Modulo<Multiplicative>>(g@)
                &&& seq_closed::<modulo::Modulo<Multiplicative>>(g@)
            }),
    {
        proof {
            modulo::lemma_multiplicative_group_laws(n as u64);
        }
        let elements = match modulo::Modulo::<Multiplicative>::generate_group(n as u64) {
            Ok(v) => v,
            Err(e) => {
                proof {
                    assert(false);
                }
                return Err(e);
            },
        };
        match FiniteGroup::try_new(elements) {
            Ok(g) => Ok(g),
            Err(e) => {
                proof {
                    assert(false);
                }
                Err(e)
            },
        }
    }

    /// Generates the symmetric group on n points and checks its closure.
    pub fn generate_permutation_group(n: usize) -> (r: Result<
        FiniteGroup<permutation::Permutation>,
        AbsaglError,
    >)
        ensures
            r is Ok,
            r matches Ok(g) ==> ({
                &&& permutation::perm_list_ok(g@, n as nat)
                &&& seq_closed::<permutation::Permutation>(g@)
            }),
            n == 0 ==> (r matches Ok(g) && g@.len() == 0),
            r matches Ok(g) ==> (n == 1 ==> g@ =~= seq![permutation::spec_id_perm(1)]),
            r matches Ok(g) ==> (n >= 2 ==> forall|m: Seq<usize>| g@.contains(m)
                <==> in_generated::<permutation::Permutation>(
                    permutation::symmetric_base(n as nat), m)),
    {
        let elements = match permutation::Permutation::generate_group(n) {
            Ok(v) => v,
            Err(e) => {
                proof {
                    assert(false);
                }
                return Err(e);
            },
        };
        proof {
            lemma_perm_list_seq_wf(models(elements@), n as nat);
            if n == 1 {
                let ms = models(elements@);
                assert(ms =~= seq![permutation::spec_id_perm(1)]);
                assert forall|i: int, j: int|
                    0 <= i < ms.len() && 0 <= j < ms.len() implies
                    ms.contains(#[trigger] permutation::spec_compose(ms[i], ms[j])) by {
                    permutation::lemma_compose_id(permutation::spec_id_perm(1));
                    assert(permutation::spec_compose(ms[i], ms[j])
                        =~= permutation::spec_id_perm(1));
                }
            }
        }
        match FiniteGroup::try_new(elements) {
            Ok(g) => Ok(g),
            Err(e) => {
                proof {
                    assert(false);
                }
                Err(e)
            },
        }
    }

    /// Generates the alternating group on n points: the even permutations of
    /// the symmetric group, accepted exactly when they form a closed set.
    pub fn generate_alternating_group(n: usize) -> (r: Result<
        FiniteGroup<permutation::Permutation>,
        AbsaglError,
    >)
        ensures
            r matches Ok(g) ==> ({
                &&& permutation::perm_list_ok(g@, n as nat)
                &&& seq_closed::<permutation::Permutation>(g@)
                &&& forall|i: int| 0 <= i < g@.len()
                    ==> permutation::spec_is_even(#[trigger] g@[i])
            }),
            n == 0 ==> r is Ok,
            n >= 2 ==> (r is Ok <==> permutation::even_products_stay_even(n as nat)),
            r matches Ok(g) ==> (n >= 2 ==> forall|m: Seq<usize>| g@.contains(m)
                <==> (in_generated::<permutation::Permutation>(
                    permutation::symmetric_base(n as nat), m)
                    && permutation::spec_is_even(m))),
            r matches Err(e) ==> e matches AbsaglError::Group(GroupError::NotClosed),
    {
        let elements = match permutation::Permutation::generate_alternative_group(n) {
            Ok(v) => v,
            Err(e) => {
                proof {
                    assert(false);
                }
                return Err(e);
            },
        };
        let ghost ms = models(elements@);
        proof {
            lemma_perm_list_seq_wf(ms, n as nat);
            assert forall|i: int| 0 <= i < ms.len() implies
                permutation::spec_is_even(#[trigger] ms[i]) by {
                assert(ms[i] == elements@[i].model());
            }
            if n == 0 {
                assert(ms.len() == 0);
            }
            if n >= 2 {
                let base = permutation::symmetric_base(n as nat);
                if permutation::even_products_stay_even(n as nat) {
                    assert forall|i: int, j: int|
                        0 <= i < ms.len() && 0 <= j < ms.len() implies
                        ms.contains(#[trigger] permutation::spec_compose(ms[i], ms[j])) by {
                        assert(ms.contains(ms[i]) && ms.contains(ms[j]));
                        assert(in_generated::<permutation::Permutation>(base, ms[i]));
                        assert(in_generated::<permutation::Permutation>(base, ms[j]));
                        lemma_generated_op::<permutation::Permutation>(base, ms[i], ms[j]);
                        assert(permutation::spec_is_even(
                            permutation::spec_compose(ms[i], ms[j])));
                        assert(in_generated::<permutation::Permutation>(base,
                            permutation::spec_compose(ms[i], ms[j])));
                    }
                }
                if seq_closed::<permutation::Permutation>(ms) {
                    assert forall|a: Seq<usize>, b: Seq<usize>|
                        in_generated::<permutation::Permutation>(base, a)
                            && in_generated::<permutation::Permutation>(base, b)
                            && permutation::spec_is_even(a) && permutation::spec_is_even(b)
                        implies permutation::spec_is_even(
                            #[trigger] permutation::spec_compose(a, b)) by {
                        assert(ms.contains(a) && ms.contains(b));
                        let i = choose|i: int| 0 <= i < ms.len() && ms[i] == a;
                        let j = choose|j: int| 0 <= j < ms.len() && ms[j] == b;
                        assert(ms.contains(
                            <permutation::Permutation as GroupElement>::m_op(ms[i], ms[j])));
                        let t = choose|t: int| 0 <= t < ms.len()
                            && ms[t] == permutation::spec_compose(a, b);
                    }
                }
            }
        }
        FiniteGroup::try_new(elements)
    }

    /// Generates the dihedral group on an n-gon and checks its closure.
    pub fn generate_dihedral_group(n: usize) -> (r: Result<
        FiniteGroup<dihedral::DihedralElement>,
        AbsaglError,
    >)
        ensures
            r is Ok <==> n >= 1,
            r matches Ok(g) ==> ({
                &&& g@ == dihedral::spec_dihedral_elements(n)
                &&& seq_wf::<dihedral::DihedralElement>(g@)
                &&& seq_closed::<dihedral::DihedralElement>(g@)
            }),
            r matches Err(e) ==> e matches AbsaglError::Dihedral(
                dihedral::DihedralError::SizeCannotBeZero),
    {
        let elements = match dihedral::DihedralElement::generate_group(n) {
            Ok(v) => v,
            Err(e) => {
                return Err(e);
            },
        };
        proof {
            lemma_dihedral_group_laws(n);
        }
        match FiniteGroup::try_new(elements) {
            Ok(g) => Ok(g),
            Err(e) => {
                proof {
                    assert(false);
                }
                Err(e)
            },
        }
    }
}

/// A valid permutation list is a well-formed model sequence.
pub proof fn lemma_perm_list_seq_wf(ms: Seq<Seq<usize>>, n: nat)
    requires
        permutation::perm_list_ok(ms, n),
        n <= usize::MAX,
    ensures
        seq_wf::<permutation::Permutation>(ms),
{
    assert forall|i: int| 0 <= i < ms.len() implies
        <permutation::Permutation as GroupElement>::m_wf(#[trigger] ms[i]) by {
        assert(utils::is_valid_mapping(ms[i]) && ms[i].len() == n);
    }
    assert forall|i: int, j: int| 0 <= i < ms.len() && 0 <= j < ms.len() implies
        #[trigger] <permutation::Permutation as GroupElement>::m_compat(ms[i], ms[j]) by {
        assert(ms[i].len() == n && ms[j].len() == n);
    }
}

/// The dihedral element list is well formed, closed, and carries identity
/// and inverses: products stay inside by index arithmetic.
#[verifier::rlimit(100)]
#[verifier::spinoff_prover]
pub proof fn lemma_dihedral_group_laws(n: usize)
    requires
        n >= 1,
    ensures
        models(dihedral::spec_dihedral_elements(n)) =~= dihedral::spec_dihedral_elements(n),
        seq_wf::<dihedral::DihedralElement>(dihedral::spec_dihedral_elements(n)),
        seq_closed::<dihedral::DihedralElement>(dihedral::spec_dihedral_elements(n)),
        identity_in::<dihedral::DihedralElement>(
            dihedral::spec_dihedral_elements(n),
            dihedral::DihedralElement { rotation: 0, reflection: false, n },
        ),
        dihedral::spec_dihedral_elements(n).contains(
            dihedral::DihedralElement { rotation: 0, reflection: false, n },
        ),
        forall|i: int| 0 <= i < dihedral::spec_dihedral_elements(n).len()
            ==> dihedral::spec_dihedral_elements(n).contains(
                <dihedral::DihedralElement as GroupElement>::m_inv(
                    #[trigger] dihedral::spec_dihedral_elements(n)[i]),
            ),
{
    let s = dihedral::spec_dihedral_elements(n);
    assert forall|i: int, j: int| 0 <= i < s.len() && 0 <= j < s.len() implies
        s.contains(#[trigger] <dihedral::DihedralElement as GroupElement>::m_op(s[i], s[j])) by {
        let p = <dihedral::DihedralElement as GroupElement>::m_op(s[i], s[j]);
        vstd::arithmetic::div_mod::lemma_mod_bound(
            (s[i].rotation + s[j].rotation) as int, n as int);
        let idx: int = if p.reflection { n + p.rotation } else { p.rotation as int };
        assert(p == s[idx]);
    }
    let e = dihedral::DihedralElement { rotation: 0, reflection: false, n };
    assert(e == s[0]);
    assert forall|i: int| 0 <= i < s.len() implies
        #[trigger] <dihedral::DihedralElement as GroupElement>::m_op(s[i], e) == s[i]
            && <dihedral::DihedralElement as GroupElement>::m_op(e, s[i]) == s[i] by {
        vstd::arithmetic::div_mod::lemma_small_mod(s[i].rotation as nat, n as nat);
    }
    assert forall|i: int| 0 <= i < s.len() implies
        s.contains(<dihedral::DihedralElement as GroupElement>::m_inv(#[trigger] s[i])) by {
        let v = <dihedral::DihedralElement as GroupElement>::m_inv(s[i]);
        vstd::arithmetic::div_mod::lemma_mod_bound((n - s[i].rotation) as int, n as int);
        let idx: int = if v.reflection { n + v.rotation } else { v.rotation as int };
        assert(v == s[idx]);
    }
}

} // verus!

verus! {

// ---- the closure generated by a set of elements ----

/// One closing round: the set together with every product of two members.
pub open spec fn gen_round<T: GroupElement>(s: Set<T::Model>) -> Set<T::Model> {
    s.union(Set::new(|y: T::Model| exists|a: T::Model, b: T::Model|
        s.contains(a) && s.contains(b) && y == #[trigger] T::m_op(a, b)))
}

/// The set after k closing rounds from a base.
pub open spec fn gen_iter<T: GroupElement>(base: Set<T::Model>, k: nat) -> Set<T::Model>
    decreases k,
{
    if k == 0 {
        base
    } else {
        gen_round::<T>(gen_iter::<T>(base, (k - 1) as nat))
    }
}

/// Membership in the closure of `base` under the element operation: the
/// smallest superset of the base closed under products.
pub open spec fn in_generated<T: GroupElement>(base: Set<T::Model>, x: T::Model) -> bool {
    exists|k: nat| gen_iter::<T>(base, k).contains(x)
}

/// The two-sided identity member of a model sequence, when one exists.
pub open spec fn the_identity<T: GroupElement>(s: Seq<T::Model>) -> T::Model {
    choose|e: T::Model| s.contains(e) && identity_in::<T>(s, e)
}

/// Closing rounds only grow the set.
pub proof fn lemma_gen_iter_monotone<T: GroupElement>(base: Set<T::Model>, j: nat, k: nat)
    requires
        j <= k,
    ensures
        forall|x: T::Model| gen_iter::<T>(base, j).contains(x)
            ==> gen_iter::<T>(base, k).contains(x),
    decreases k,
{
    if j < k {
        lemma_gen_iter_monotone::<T>(base, j, (k - 1) as nat);
    }
}

/// Base members belong to the closure.
pub proof fn lemma_generated_base<T: GroupElement>(base: Set<T::Model>, x: T::Model)
    requires
        base.contains(x),
    ensures
        in_generated::<T>(base, x),
{
    assert(gen_iter::<T>(base, 0).contains(x));
}

/// The closure is itself closed under the element operation.
pub proof fn lemma_generated_op<T: GroupElement>(base: Set<T::Model>, a: T::Model, b: T::Model)
    requires
        in_generated::<T>(base, a),
        in_generated::<T>(base, b),
    ensures
        in_generated::<T>(base, T::m_op(a, b)),
{
    let ka = choose|k: nat| gen_iter::<T>(base, k).contains(a);
    let kb = choose|k: nat| gen_iter::<T>(base, k).contains(b);
    let k = if ka >= kb { ka } else { kb };
    lemma_gen_iter_monotone::<T>(base, ka, k);
    lemma_gen_iter_monotone::<T>(base, kb, k);
    assert(gen_iter::<T>(base, (k + 1) as nat).contains(T::m_op(a, b)));
}

/// The closure is the smallest: any closed member list covering the base
/// covers the whole closure.
pub proof fn lemma_generated_minimal<T: GroupElement>(
    base: Set<T::Model>,
    s: Seq<T::Model>,
    x: T::Model,
)
    requires
        forall|y: T::Model| base.contains(y) ==> s.contains(y),
        seq_closed::<T>(s),
        in_generated::<T>(base, x),
    ensures
        s.contains(x),
{
    let k = choose|k: nat| gen_iter::<T>(base, k).contains(x);
    lemma_gen_iter_in_closed::<T>(base, s, x, k);
}

proof fn lemma_gen_iter_in_closed<T: GroupElement>(
    base: Set<T::Model>,
    s: Seq<T::Model>,
    x: T::Model,
    k: nat,
)
    requires
        forall|y: T::Model| base.contains(y) ==> s.contains(y),
        seq_closed::<T>(s),
        gen_iter::<T>(base, k).contains(x),
    ensures
        s.contains(x),
    decreases k,
{
    if k == 0 {
    } else {
        let prev = gen_iter::<T>(base, (k - 1) as nat);
        if prev.contains(x) {
            lemma_gen_iter_in_closed::<T>(base, s, x, (k - 1) as nat);
        } else {
            let (a, b) = choose|a: T::Model, b: T::Model|
                prev.contains(a) && prev.contains(b) && x == #[trigger] T::m_op(a, b);
            lemma_gen_iter_in_closed::<T>(base, s, a, (k - 1) as nat);
            lemma_gen_iter_in_closed::<T>(base, s, b, (k - 1) as nat);
            let i = choose|i: int| 0 <= i < s.len() && s[i] == a;
            let j = choose|j: int| 0 <= j < s.len() && s[j] == b;
            assert(s.contains(T::m_op(s[i], s[j])));
        }
    }
}

} // verus!
