//! Cosets of a subgroup and the factor (quotient) group they form.

use vstd::prelude::*;
use vstd::multiset::Multiset;
use crate::error::AbsaglError;
use crate::groups::{
    cross_compat, models, seq_closed, seq_normal_in, seq_set_eq, seq_wf, CanonicalRepr,
    CheckedOp, FiniteGroup, GroupElement, GroupError,
};

verus! {

/// Errors of the coset machinery.
#[derive(Debug)]
pub enum CosetError {
    /// The provided subgroup is invalid.
    InvalidSubgroup(GroupError),
    MixLeftAndRightCoset,
    DifferentSubgroup,
    Element(Box<AbsaglError>),
}

/// Whether a coset is a left translate gH or a right translate Hg.
#[derive(Debug, Clone, Copy, PartialEq, Eq, Structural, Hash)]
pub enum CosetSide {
    Left,
    Right,
}

/// A coset of a subgroup: a representative, a borrowed subgroup that must
/// outlive the coset, and the side tag.
#[derive(Debug, Clone)]
pub struct Coset<'a, T: GroupElement> {
    pub representative: T,
    pub subgroup: &'a FiniteGroup<T>,
    pub side: CosetSide,
}

/// The i-th member of the coset: representative * h for a left coset,
/// h * representative for a right coset.
pub open spec fn coset_member<T: GroupElement>(
    rep: T::Model,
    h: Seq<T::Model>,
    side: CosetSide,
    i: int,
) -> T::Model {
    if side == CosetSide::Left {
        T::m_op(rep, h[i])
    } else {
        T::m_op(h[i], rep)
    }
}

/// Two cosets are equal when their sides match, their subgroups hold one
/// set, and the representatives differ by a subgroup member: for the left
/// convention rep1^-1 * rep2 lies in the subgroup, for the right convention
/// rep2 * rep1^-1 does.
pub open spec fn coset_equiv<T: GroupElement>(
    side1: CosetSide,
    r1: T::Model,
    h1: Seq<T::Model>,
    side2: CosetSide,
    r2: T::Model,
    h2: Seq<T::Model>,
) -> bool {
    &&& side1 == side2
    &&& seq_set_eq::<T>(h1, h2)
    &&& if side1 == CosetSide::Left {
        h1.contains(T::m_op(T::m_inv(r1), r2))
    } else {
        h1.contains(T::m_op(r2, T::m_inv(r1)))
    }
}

impl<'a, T: GroupElement> Coset<'a, T> {
    /// The coset's representative, its subgroup's models, and its side are
    /// valid and share one domain.
    pub open spec fn wf(self) -> bool {
        &&& T::m_wf(self.representative.model())
        &&& seq_wf::<T>(self.subgroup@)
        &&& forall|i: int| 0 <= i < self.subgroup@.len()
            ==> T::m_compat(self.representative.model(), #[trigger] self.subgroup@[i])
    }

    /// The model of the representative.
    pub open spec fn spec_rep(self) -> T::Model {
        self.representative.model()
    }

    /// The models of the subgroup.
    pub open spec fn spec_sub(self) -> Seq<T::Model> {
        self.subgroup@
    }

    /// The side tag.
    pub open spec fn spec_side(self) -> CosetSide {
        self.side
    }

    /// A reference to the stored representative.
    pub fn rep_ref(&self) -> (r: &T)
        ensures
            r.model() == self.spec_rep(),
    {
        &self.representative
    }

    /// Creates a coset after checking that the subgroup is closed.
    pub fn new(representative: T, subgroup: &'a FiniteGroup<T>, side: CosetSide) -> (r: Result<
        Coset<'a, T>,
        AbsaglError,
    >)
        requires
            T::m_wf(representative.model()),
            seq_wf::<T>(subgroup@),
            forall|i: int| 0 <= i < subgroup@.len()
                ==> T::m_compat(representative.model(), #[trigger] subgroup@[i]),
        ensures
            r is Ok <==> seq_closed::<T>(subgroup@),
            r matches Ok(c) ==> ({
                &&& c.spec_rep() == representative.model()
                &&& c.spec_sub() == subgroup@
                &&& c.spec_side() == side
                &&& c.wf()
            }),
            r matches Err(e) ==> e matches AbsaglError::Coset(CosetError::InvalidSubgroup(
                GroupError::NotClosed)),
    {
        if !subgroup.is_closed() {
            return Err(AbsaglError::Coset(CosetError::InvalidSubgroup(GroupError::NotClosed)));
        }
        Ok(Coset { representative, subgroup, side })
    }

    /// The coset product (aN)(bN) = (ab)N; the caller keeps the sides equal
    /// and the domains compatible.
    pub fn op(&self, other: &Coset<'a, T>) -> (r: Coset<'a, T>)
        requires
            self.wf(),
            T::m_wf(other.spec_rep()),
            T::m_compat(self.spec_rep(), other.spec_rep()),
            self.spec_side() == other.spec_side(),
        ensures
            r.spec_rep() == T::m_op(self.spec_rep(), other.spec_rep()),
            r.spec_sub() == self.spec_sub(),
            r.spec_side() == self.spec_side(),
            r.wf(),
    {
        proof {
            T::lemma_op_wf(self.spec_rep(), other.spec_rep());
            assert forall|i: int| 0 <= i < self.subgroup@.len() implies
                T::m_compat(T::m_op(self.spec_rep(), other.spec_rep()),
                    #[trigger] self.subgroup@[i]) by {
                T::lemma_compat_sym(T::m_op(self.spec_rep(), other.spec_rep()), self.spec_rep());
                T::lemma_compat_trans(
                    T::m_op(self.spec_rep(), other.spec_rep()),
                    self.spec_rep(),
                    self.subgroup@[i],
                );
            }
        }
        Coset {
            representative: self.representative.op(&other.representative),
            subgroup: self.subgroup,
            side: self.side,
        }
    }

    /// The inverse coset (gN)^-1 = g^-1 N.
    pub fn inverse(&self) -> (r: Coset<'a, T>)
        requires
            self.wf(),
        ensures
            r.spec_rep() == T::m_inv(self.spec_rep()),
            r.spec_sub() == self.spec_sub(),
            r.spec_side() == self.spec_side(),
            r.wf(),
    {
        proof {
            T::lemma_inv_wf(self.spec_rep());
            assert forall|i: int| 0 <= i < self.subgroup@.len() implies
                T::m_compat(T::m_inv(self.spec_rep()), #[trigger] self.subgroup@[i]) by {
                T::lemma_compat_trans(
                    T::m_inv(self.spec_rep()),
                    self.spec_rep(),
                    self.subgroup@[i],
                );
            }
        }
        Coset {
            representative: self.representative.inverse(),
            subgroup: self.subgroup,
            side: self.side,
        }
    }

    /// Structural coset equality: matching side, one subgroup set, and
    /// representatives whose difference lies in the subgroup.
    pub fn coset_eq(&self, other: &Coset<'a, T>) -> (r: bool)
        requires
            self.wf(),
            other.wf(),
            T::m_compat(self.spec_rep(), other.spec_rep()),
        ensures
            r == coset_equiv::<T>(
                self.spec_side(), self.spec_rep(), self.spec_sub(),
                other.spec_side(), other.spec_rep(), other.spec_sub(),
            ),
    {
        if self.side != other.side {
            return false;
        }
        if !self.subgroup.set_eq(other.subgroup) {
            return false;
        }
        proof {
            T::lemma_inv_wf(self.spec_rep());
            T::lemma_compat_sym(T::m_inv(self.spec_rep()), self.spec_rep());
            T::lemma_compat_trans(
                T::m_inv(self.spec_rep()),
                self.spec_rep(),
                other.spec_rep(),
            );
            T::lemma_compat_sym(T::m_inv(self.spec_rep()), other.spec_rep());
        }
        let a_inv = self.representative.inverse();
        let probe = if self.side == CosetSide::Left {
            a_inv.op(&other.representative)
        } else {
            other.representative.op(&a_inv)
        };
        crate::groups::contains_el(self.subgroup.elements(), &probe)
    }

    /// Materializes the full coset: one product for every subgroup member,
    /// or the subgroup itself when the representative already lies in it.
    /// Either way the result holds exactly as many elements as the subgroup.
    pub fn enumerate_coset(&self) -> (r: Vec<T>)
        requires
            self.wf(),
        ensures
            models(r@).len() == self.spec_sub().len(),
            models(r@) == (if self.spec_sub().contains(self.spec_rep()) {
                self.spec_sub()
            } else {
                Seq::new(
                    self.spec_sub().len(),
                    |i: int| coset_member::<T>(self.spec_rep(), self.spec_sub(),
                        self.spec_side(), i),
                )
            }),
    {
        let elems = self.subgroup.elements();
        if crate::groups::contains_el(elems, &self.representative) {
            let mut out: Vec<T> = Vec::new();
            let mut i: usize = 0;
            while i < elems.len()
                invariant
                    i <= elems@.len(),
                    models(elems@) == self.spec_sub(),
                    out@.len() == i,
                    forall|k: int| 0 <= k < i
                        ==> (#[trigger] out@[k]).model() == elems@[k].model(),
                decreases elems@.len() - i,
            {
                out.push(elems[i].clone_el());
                i = i + 1;
            }
            proof {
                assert(models(out@) =~= self.spec_sub());
            }
            return out;
        }
        let mut out: Vec<T> = Vec::new();
        let mut i: usize = 0;
        while i < elems.len()
            invariant
                i <= elems@.len(),
                self.wf(),
                models(elems@) == self.spec_sub(),
                out@.len() == i,
                forall|k: int| 0 <= k < i
                    ==> (#[trigger] out@[k]).model()
                        == coset_member::<T>(self.spec_rep(), self.spec_sub(),
                            self.spec_side(), k),
            decreases elems@.len() - i,
        {
            let h = &elems[i];
            proof {
                assert(self.spec_sub()[i as int] == elems@[i as int].model());
                T::lemma_compat_sym(self.spec_rep(), self.spec_sub()[i as int]);
            }
            let e = if self.side == CosetSide::Left {
                self.representative.op(h)
            } else {
                h.op(&self.representative)
            };
            out.push(e);
            i = i + 1;
        }
        proof {
            assert(models(out@) =~= Seq::new(
                self.spec_sub().len(),
                |i: int| coset_member::<T>(self.spec_rep(), self.spec_sub(),
                    self.spec_side(), i),
            ));
        }
        out
    }
}

impl<'a, T: GroupElement + CheckedOp> Coset<'a, T> {
    /// A fallible coset product: rejects mixed sides, different subgroups,
    /// and incompatible representatives.
    pub fn checked_op(&self, other: &Coset<'a, T>) -> (r: Result<Coset<'a, T>, CosetError>)
        requires
            self.wf(),
            T::m_wf(other.spec_rep()),
        ensures
            r matches Ok(c) ==> ({
                &&& self.spec_side() == other.spec_side()
                &&& seq_set_eq::<T>(self.spec_sub(), other.spec_sub())
                &&& T::m_compat(self.spec_rep(), other.spec_rep())
                &&& c.spec_rep() == T::m_op(self.spec_rep(), other.spec_rep())
                &&& c.spec_sub() == self.spec_sub()
                &&& c.spec_side() == self.spec_side()
            }),
            r matches Err(CosetError::MixLeftAndRightCoset)
                <==> self.spec_side() != other.spec_side(),
            r matches Err(CosetError::DifferentSubgroup)
                <==> (self.spec_side() == other.spec_side()
                    && !seq_set_eq::<T>(self.spec_sub(), other.spec_sub())),
            r matches Err(CosetError::Element(_))
                <==> (self.spec_side() == other.spec_side()
                    && seq_set_eq::<T>(self.spec_sub(), other.spec_sub())
                    && !T::m_compat(self.spec_rep(), other.spec_rep())),
            r is Err <==> (self.spec_side() != other.spec_side()
                || !seq_set_eq::<T>(self.spec_sub(), other.spec_sub())
                || !T::m_compat(self.spec_rep(), other.spec_rep())),
    {
        if self.side != other.side {
            return Err(CosetError::MixLeftAndRightCoset);
        }
        if !self.subgroup.set_eq(other.subgroup) {
            return Err(CosetError::DifferentSubgroup);
        }
        let representative = match self.representative.checked_op(&other.representative) {
            Ok(v) => v,
            Err(e) => {
                return Err(CosetError::Element(Box::new(T::wrap_err(e))));
            },
        };
        proof {
            T::lemma_op_wf(self.spec_rep(), other.spec_rep());
            assert forall|i: int| 0 <= i < self.subgroup@.len() implies
                T::m_compat(T::m_op(self.spec_rep(), other.spec_rep()),
                    #[trigger] self.subgroup@[i]) by {
                T::lemma_compat_sym(T::m_op(self.spec_rep(), other.spec_rep()), self.spec_rep());
                T::lemma_compat_trans(
                    T::m_op(self.spec_rep(), other.spec_rep()),
                    self.spec_rep(),
                    self.subgroup@[i],
                );
            }
        }
        Ok(Coset { representative, subgroup: self.subgroup, side: self.side })
    }
}

impl<'a, T: GroupElement + CanonicalRepr> Coset<'a, T> {
    /// Finds the canonical representative of the coset: the member whose
    /// canonical byte encoding is lexicographically smallest.
    pub fn get_canonical_representative(&self) -> (r: T)
        requires
            self.wf(),
            self.spec_sub().len() >= 1,
        ensures
            exists|i: int| 0 <= i < self.spec_sub().len()
                && r.model() == coset_member::<T>(self.spec_rep(), self.spec_sub(),
                    self.spec_side(), i),
            forall|i: int| 0 <= i < self.spec_sub().len()
                ==> spec_lex_le(T::m_canon(r.model()), T::m_canon(
                    #[trigger] coset_member::<T>(self.spec_rep(), self.spec_sub(),
                        self.spec_side(), i))),
    {
        let elems = self.subgroup.elements();
        proof {
            assert(self.spec_sub()[0] == elems@[0].model());
            T::lemma_compat_sym(self.spec_rep(), self.spec_sub()[0]);
        }
        let h0 = &elems[0];
        let mut best: T = if self.side == CosetSide::Left {
            self.representative.op(h0)
        } else {
            h0.op(&self.representative)
        };
        let mut best_bytes = best.to_canonical_bytes();
        proof {
            assert(best.model() == coset_member::<T>(self.spec_rep(), self.spec_sub(),
                self.spec_side(), 0));
            lemma_lex_total(T::m_canon(best.model()), T::m_canon(best.model()));
        }
        let mut i: usize = 1;
        while i < elems.len()
            invariant
                1 <= i <= elems@.len(),
                self.wf(),
                models(elems@) == self.spec_sub(),
                best_bytes@ == T::m_canon(best.model()),
                exists|k: int| 0 <= k < i
                    && best.model() == coset_member::<T>(self.spec_rep(), self.spec_sub(),
                        self.spec_side(), k),
                forall|k: int| 0 <= k < i
                    ==> spec_lex_le(T::m_canon(best.model()), T::m_canon(
                        #[trigger] coset_member::<T>(self.spec_rep(), self.spec_sub(),
                            self.spec_side(), k))),
            decreases elems@.len() - i,
        {
            let h = &elems[i];
            proof {
                assert(self.spec_sub()[i as int] == elems@[i as int].model());
                T::lemma_compat_sym(self.spec_rep(), self.spec_sub()[i as int]);
            }
            let cand = if self.side == CosetSide::Left {
                self.representative.op(h)
            } else {
                h.op(&self.representative)
            };
            let cand_bytes = cand.to_canonical_bytes();
            proof {
                assert(cand.model() == coset_member::<T>(self.spec_rep(), self.spec_sub(),
                    self.spec_side(), i as int));
            }
            if lex_le(&cand_bytes, &best_bytes) && !lex_le(&best_bytes, &cand_bytes) {
                proof {
                    lemma_lex_total(T::m_canon(cand.model()), T::m_canon(cand.model()));
                    assert forall|k: int| 0 <= k < i + 1 implies
                        spec_lex_le(T::m_canon(cand.model()), T::m_canon(
                            #[trigger] coset_member::<T>(self.spec_rep(), self.spec_sub(),
                                self.spec_side(), k))) by {
                        if k < i {
                            lemma_lex_trans(
                                T::m_canon(cand.model()),
                                T::m_canon(best.model()),
                                T::m_canon(coset_member::<T>(self.spec_rep(), self.spec_sub(),
                                    self.spec_side(), k)),
                            );
                        }
                    }
                }
                best = cand;
                best_bytes = cand_bytes;
            } else {
                proof {
                    lemma_lex_total(T::m_canon(cand.model()), T::m_canon(best.model()));
                    assert(spec_lex_le(T::m_canon(best.model()), T::m_canon(cand.model())));
                }
            }
            i = i + 1;
        }
        best
    }
}

// ---- lexicographic order on byte strings ----

/// Lexicographic order on byte sequences; the shorter prefix comes first.
pub open spec fn spec_lex_le(a: Seq<u8>, b: Seq<u8>) -> bool
    decreases a.len(),
{
    if a.len() == 0 {
        true
    } else if b.len() == 0 {
        false
    } else if a[0] < b[0] {
        true
    } else if a[0] > b[0] {
        false
    } else {
        spec_lex_le(a.drop_first(), b.drop_first())
    }
}

/// The order is total.
pub proof fn lemma_lex_total(a: Seq<u8>, b: Seq<u8>)
    ensures
        spec_lex_le(a, b) || spec_lex_le(b, a),
    decreases a.len(),
{
    if a.len() > 0 && b.len() > 0 && a[0] == b[0] {
        lemma_lex_total(a.drop_first(), b.drop_first());
    }
}

/// The order is transitive.
pub proof fn lemma_lex_trans(a: Seq<u8>, b: Seq<u8>, c: Seq<u8>)
    requires
        spec_lex_le(a, b),
        spec_lex_le(b, c),
    ensures
        spec_lex_le(a, c),
    decreases a.len(),
{
    if a.len() > 0 && b.len() > 0 && c.len() > 0 {
        if a[0] == b[0] && b[0] == c[0] {
            lemma_lex_trans(a.drop_first(), b.drop_first(), c.drop_first());
        }
    }
}

/// Mutually ordered sequences are equal.
pub proof fn lemma_lex_antisym(a: Seq<u8>, b: Seq<u8>)
    requires
        spec_lex_le(a, b),
        spec_lex_le(b, a),
    ensures
        a =~= b,
    decreases a.len(),
{
    if a.len() > 0 && b.len() > 0 && a[0] == b[0] {
        lemma_lex_antisym(a.drop_first(), b.drop_first());
        assert(a =~= Seq::empty().push(a[0]) + a.drop_first());
        assert(b =~= Seq::empty().push(b[0]) + b.drop_first());
    }
}

/// Decides the lexicographic order on byte vectors.
pub fn lex_le(a: &Vec<u8>, b: &Vec<u8>) -> (r: bool)
    ensures
        r == spec_lex_le(a@, b@),
{
    let mut i: usize = 0;
    let alen = a.len();
    let blen = b.len();
    proof {
        assert(a@.skip(0) =~= a@);
        assert(b@.skip(0) =~= b@);
    }
    while i < alen && i < blen
        invariant
            i <= alen,
            i <= blen,
            alen == a@.len(),
            blen == b@.len(),
            forall|k: int| 0 <= k < i ==> a@[k] == b@[k],
            spec_lex_le(a@, b@) == spec_lex_le(a@.skip(i as int), b@.skip(i as int)),
        decreases alen - i,
    {
        if a[i] < b[i] {
            proof {
                assert(spec_lex_le(a@.skip(i as int), b@.skip(i as int)));
            }
            return true;
        }
        if a[i] > b[i] {
            proof {
                assert(!spec_lex_le(a@.skip(i as int), b@.skip(i as int)));
            }
            return false;
        }
        proof {
            assert(a@.skip(i as int).drop_first() =~= a@.skip(i as int + 1));
            assert(b@.skip(i as int).drop_first() =~= b@.skip(i as int + 1));
        }
        i = i + 1;
    }
    proof {
        if a@.len() <= i {
            assert(a@.skip(i as int).len() == 0);
        } else {
            assert(b@.skip(i as int).len() == 0);
            assert(a@.skip(i as int).len() > 0);
        }
    }
    alen <= blen
}

} // verus!

verus! {

/// The factor group G/N: a borrowed ambient group and a borrowed normal
/// subgroup, producing cosets in the left convention.
#[derive(Debug)]
pub struct FactorGroup<'a, T: GroupElement> {
    pub group: &'a FiniteGroup<T>,
    pub normal_subgroup: &'a FiniteGroup<T>,
}

impl<'a, T: GroupElement> FactorGroup<'a, T> {
    /// Both borrowed groups are valid and share one domain.
    pub open spec fn wf(self) -> bool {
        &&& seq_wf::<T>(self.group@)
        &&& seq_wf::<T>(self.normal_subgroup@)
        &&& cross_compat::<T>(self.group@, self.normal_subgroup@)
    }

    /// The models of the ambient group.
    pub open spec fn spec_group(self) -> Seq<T::Model> {
        self.group@
    }

    /// The models of the normal subgroup.
    pub open spec fn spec_sub(self) -> Seq<T::Model> {
        self.normal_subgroup@
    }

    /// Builds a factor group after checking that both groups are closed,
    /// that the subgroup is normal in the group, and that their orders
    /// differ.
    pub fn new(group: &'a FiniteGroup<T>, subgroup: &'a FiniteGroup<T>) -> (r: Result<
        FactorGroup<'a, T>,
        AbsaglError,
    >)
        requires
            seq_wf::<T>(group@),
            seq_wf::<T>(subgroup@),
            cross_compat::<T>(group@, subgroup@),
        ensures
            r is Ok <==> (seq_closed::<T>(group@) && seq_closed::<T>(subgroup@)
                && seq_normal_in::<T>(group@, subgroup@) && group@.len() != subgroup@.len()),
            r matches Ok(f) ==> f.spec_group() == group@ && f.spec_sub() == subgroup@ && f.wf(),
            r matches Err(AbsaglError::Group(GroupError::NotClosed))
                <==> !(seq_closed::<T>(group@) && seq_closed::<T>(subgroup@)),
            r matches Err(AbsaglError::Group(GroupError::NotNormalSubgroup))
                <==> (seq_closed::<T>(group@) && seq_closed::<T>(subgroup@)
                    && !seq_normal_in::<T>(group@, subgroup@)),
            r matches Err(AbsaglError::Group(GroupError::NotSubgroup))
                <==> (seq_closed::<T>(group@) && seq_closed::<T>(subgroup@)
                    && seq_normal_in::<T>(group@, subgroup@)
                    && group@.len() == subgroup@.len()),
    {
        if !group.is_closed() || !subgroup.is_closed() {
            return Err(AbsaglError::Group(GroupError::NotClosed));
        }
        if !group.is_normal(subgroup) {
            return Err(AbsaglError::Group(GroupError::NotNormalSubgroup));
        }
        if group.order() == subgroup.order() {
            return Err(AbsaglError::Group(GroupError::NotSubgroup));
        }
        Ok(FactorGroup { group, normal_subgroup: subgroup })
    }

    /// The coset product (aN)(bN) = (ab)N, always in the left convention.
    pub fn operate(&self, a: &Coset<'a, T>, b: &Coset<'a, T>) -> (r: Coset<'a, T>)
        requires
            self.wf(),
            T::m_wf(a.spec_rep()),
            T::m_wf(b.spec_rep()),
            T::m_compat(a.spec_rep(), b.spec_rep()),
            forall|i: int| 0 <= i < self.spec_sub().len()
                ==> T::m_compat(T::m_op(a.spec_rep(), b.spec_rep()),
                    #[trigger] self.spec_sub()[i]),
        ensures
            r.spec_rep() == T::m_op(a.spec_rep(), b.spec_rep()),
            r.spec_sub() == self.spec_sub(),
            r.spec_side() == CosetSide::Left,
            r.wf(),
    {
        proof {
            T::lemma_op_wf(a.spec_rep(), b.spec_rep());
        }
        Coset {
            representative: a.rep_ref().op(b.rep_ref()),
            subgroup: self.normal_subgroup,
            side: CosetSide::Left,
        }
    }

    /// The inverse coset (gN)^-1 = g^-1 N, in the left convention.
    pub fn inverse(&self, element: &Coset<'a, T>) -> (r: Coset<'a, T>)
        requires
            self.wf(),
            T::m_wf(element.spec_rep()),
            forall|i: int| 0 <= i < self.spec_sub().len()
                ==> T::m_compat(T::m_inv(element.spec_rep()), #[trigger] self.spec_sub()[i]),
        ensures
            r.spec_rep() == T::m_inv(element.spec_rep()),
            r.spec_sub() == self.spec_sub(),
            r.spec_side() == CosetSide::Left,
            r.wf(),
    {
        proof {
            T::lemma_inv_wf(element.spec_rep());
        }
        Coset {
            representative: element.rep_ref().inverse(),
            subgroup: self.normal_subgroup,
            side: CosetSide::Left,
        }
    }

    /// The identity coset eN, from the ambient group's identity; reports
    /// `GroupError::NotFound` exactly when the ambient group has none.
    pub fn identity(&self) -> (r: Result<Coset<'a, T>, GroupError>)
        requires
            self.wf(),
        ensures
            r is Ok <==> crate::groups::has_identity::<T>(self.spec_group()),
            r matches Ok(c) ==> ({
                &&& self.spec_group().contains(c.spec_rep())
                &&& crate::groups::identity_in::<T>(self.spec_group(), c.spec_rep())
                &&& c.spec_sub() == self.spec_sub()
                &&& c.spec_side() == CosetSide::Left
                &&& c.wf()
            }),
    {
        let e = match self.group.identity() {
            Ok(e) => e,
            Err(err) => {
                return Err(err);
            },
        };
        proof {
            let k = choose|k: int| 0 <= k < self.spec_group().len()
                && self.spec_group()[k] == e.model();
            assert(T::m_wf(e.model()));
            assert forall|i: int| 0 <= i < self.spec_sub().len() implies
                T::m_compat(e.model(), #[trigger] self.spec_sub()[i]) by {
                assert(T::m_compat(self.spec_group()[k], self.spec_sub()[i]));
            }
        }
        Ok(Coset { representative: e, subgroup: self.normal_subgroup, side: CosetSide::Left })
    }

    /// The order of G/N: |G| / |N| by Lagrange's theorem.
    pub fn order(&self) -> (r: usize)
        ensures
            r == (if self.spec_sub().len() == 0 {
                0int
            } else {
                self.spec_group().len() as int / self.spec_sub().len() as int
            }),
    {
        if self.normal_subgroup.order() == 0 {
            0
        } else {
            self.group.order() / self.normal_subgroup.order()
        }
    }

    /// A factor group is closed by construction.
    pub fn is_closed(&self) -> (r: bool)
        ensures
            r,
    {
        true
    }

    /// Checks that the factor group is abelian: every pair of cosets
    /// commutes, which means (ab)^-1 (ba) lies in the subgroup.
    pub fn is_abelian(&self) -> (r: bool)
        requires
            self.wf(),
        ensures
            r == forall|i: int, j: int|
                0 <= i < self.spec_group().len() && 0 <= j < self.spec_group().len()
                    ==> self.spec_sub().contains(#[trigger] T::m_op(
                        T::m_inv(T::m_op(self.spec_group()[i], self.spec_group()[j])),
                        T::m_op(self.spec_group()[j], self.spec_group()[i]),
                    )),
    {
        let elems = self.group.elements();
        let n = elems.len();
        let mut i: usize = 0;
        while i < n
            invariant
                i <= n,
                self.wf(),
                n == self.spec_group().len(),
                models(elems@) == self.spec_group(),
                forall|a: int, b: int|
                    0 <= a < i && 0 <= b < n
                        ==> self.spec_sub().contains(#[trigger] T::m_op(
                            T::m_inv(T::m_op(self.spec_group()[a], self.spec_group()[b])),
                            T::m_op(self.spec_group()[b], self.spec_group()[a]),
                        )),
            decreases n - i,
        {
            let mut j: usize = 0;
            while j < n
                invariant
                    i < n,
                    j <= n,
                    self.wf(),
                    n == self.spec_group().len(),
                    models(elems@) == self.spec_group(),
                    forall|b: int|
                        0 <= b < j
                            ==> self.spec_sub().contains(#[trigger] T::m_op(
                                T::m_inv(T::m_op(self.spec_group()[i as int],
                                    self.spec_group()[b])),
                                T::m_op(self.spec_group()[b], self.spec_group()[i as int]),
                            )),
                decreases n - j,
            {
                let gi = &elems[i];
                let gj = &elems[j];
                proof {
                    let mi = self.spec_group()[i as int];
                    let mj = self.spec_group()[j as int];
                    assert(mi == elems@[i as int].model());
                    assert(mj == elems@[j as int].model());
                    T::lemma_op_wf(mi, mj);
                    T::lemma_op_wf(mj, mi);
                    let ab = T::m_op(mi, mj);
                    let ba = T::m_op(mj, mi);
                    T::lemma_inv_wf(ab);
                    // Chain inv(ab) ~ ab ~ mi ~ mj ~ ba through the domain.
                    T::lemma_compat_trans(T::m_inv(ab), ab, mi);
                    T::lemma_compat_trans(T::m_inv(ab), mi, mj);
                    T::lemma_compat_sym(ba, mj);
                    T::lemma_compat_trans(T::m_inv(ab), mj, ba);
                }
                let ab = gi.op(gj);
                let ba = gj.op(gi);
                let probe = ab.inverse().op(&ba);
                if !crate::groups::contains_el(self.normal_subgroup.elements(), &probe) {
                    return false;
                }
                j = j + 1;
            }
            i = i + 1;
        }
        true
    }
}

} // verus!

verus! {

/// The byte sequences a list of byte vectors denotes.
pub open spec fn byte_views(s: Seq<Vec<u8>>) -> Seq<Seq<u8>> {
    s.map_values(|v: Vec<u8>| v@)
}

/// The list is sorted under the lexicographic order.
pub open spec fn lex_sorted(s: Seq<Seq<u8>>) -> bool {
    forall|i: int, j: int| 0 <= i < j < s.len() ==> spec_lex_le(#[trigger] s[i], #[trigger] s[j])
}

/// Inserting into a sequence adds exactly one occurrence to its multiset.
proof fn lemma_insert_multiset<A>(s: Seq<A>, i: int, x: A)
    requires
        0 <= i <= s.len(),
    ensures
        s.insert(i, x).to_multiset() =~= s.to_multiset().insert(x),
{
    broadcast use vstd::seq_lib::group_seq_properties;
    broadcast use vstd::multiset::group_multiset_axioms;
    let pre = s.take(i);
    let post = s.skip(i);
    assert(s.insert(i, x) =~= pre + (Seq::empty().push(x) + post));
    assert(s =~= pre + post);
    vstd::seq_lib::lemma_multiset_commutative(pre, Seq::empty().push(x) + post);
    vstd::seq_lib::lemma_multiset_commutative(Seq::empty().push(x), post);
    vstd::seq_lib::lemma_multiset_commutative(pre, post);
    assert(Seq::<A>::empty().push(x).to_multiset() =~= Multiset::empty().insert(x)) by {
        assert(Seq::<A>::empty().push(x).drop_last() =~= Seq::<A>::empty());
        vstd::seq_lib::lemma_multiset_commutative(Seq::<A>::empty(), Seq::empty().push(x));
    }
}

impl<T: GroupElement + CanonicalRepr> FiniteGroup<T> {
    /// The canonical form of the group: every member's canonical byte
    /// encoding, sorted lexicographically. Set-equal groups stored in any
    /// order produce one form, which makes the form fit for hashing a group
    /// as a set.
    pub fn canonical_form(&self) -> (r: Vec<Vec<u8>>)
        ensures
            lex_sorted(byte_views(r@)),
            byte_views(r@).to_multiset()
                == self@.map_values(|m: T::Model| T::m_canon(m)).to_multiset(),
    {
        let elems = self.elements();
        let n = elems.len();
        let mut out: Vec<Vec<u8>> = Vec::new();
        let mut i: usize = 0;
        proof {
            assert(byte_views(out@) =~= Seq::<Seq<u8>>::empty());
            assert(self@.map_values(|m: T::Model| T::m_canon(m)).take(0)
                =~= Seq::<Seq<u8>>::empty());
            vstd::seq_lib::lemma_multiset_commutative(
                Seq::<Seq<u8>>::empty(), Seq::<Seq<u8>>::empty());
        }
        while i < n
            invariant
                i <= n,
                n == self@.len(),
                models(elems@) == self@,
                lex_sorted(byte_views(out@)),
                byte_views(out@).to_multiset()
                    == self@.map_values(|m: T::Model| T::m_canon(m)).take(i as int).to_multiset(),
            decreases n - i,
        {
            proof {
                assert(self@[i as int] == elems@[i as int].model());
            }
            let bytes = elems[i].to_canonical_bytes();
            // Find the insertion point that keeps the list sorted.
            let mut idx: usize = 0;
            while idx < out.len() && lex_le(&out[idx], &bytes)
                invariant
                    idx <= out@.len(),
                    bytes@ == T::m_canon(self@[i as int]),
                    forall|k: int| 0 <= k < idx
                        ==> spec_lex_le(#[trigger] byte_views(out@)[k], bytes@),
                decreases out@.len() - idx,
            {
                proof {
                    assert(byte_views(out@)[idx as int] == out@[idx as int]@);
                }
                idx = idx + 1;
            }
            let ghost old_views = byte_views(out@);
            proof {
                if idx < out@.len() {
                    assert(byte_views(out@)[idx as int] == out@[idx as int]@);
                    lemma_lex_total(out@[idx as int]@, bytes@);
                }
            }
            out.insert(idx, bytes);
            proof {
                assert(byte_views(out@) =~= old_views.insert(idx as int, bytes@));
                lemma_insert_multiset(old_views, idx as int, bytes@);
                let canons = self@.map_values(|m: T::Model| T::m_canon(m));
                assert(canons.take(i as int + 1).drop_last() =~= canons.take(i as int));
                assert(canons.take(i as int + 1).last() == bytes@);
                assert(canons.take(i as int + 1).to_multiset()
                    =~= canons.take(i as int).to_multiset().insert(bytes@)) by {
                    broadcast use vstd::seq_lib::group_to_multiset_ensures;
                    assert(canons.take(i as int + 1)
                        =~= canons.take(i as int).push(bytes@));
                }
                // Sortedness after the insertion: the prefix is below the new
                // entry, the new entry is below the old suffix, and untouched
                // pairs keep their order.
                let nv = byte_views(out@);
                assert forall|a: int, b: int| 0 <= a < b < nv.len() implies
                    spec_lex_le(#[trigger] nv[a], #[trigger] nv[b]) by {
                    if a < idx && b == idx {
                    } else if a == idx && b > idx {
                        if idx < old_views.len() && b - 1 > idx {
                            assert(spec_lex_le(old_views[idx as int], old_views[b - 1]));
                            lemma_lex_trans(bytes@, old_views[idx as int],
                                old_views[b - 1]);
                        }
                    } else if a < idx && b > idx {
                        assert(nv[a] == old_views[a] && nv[b] == old_views[b - 1]);
                    } else if a > idx && b > idx {
                        assert(nv[a] == old_views[a - 1] && nv[b] == old_views[b - 1]);
                    }
                }
            }
            i = i + 1;
        }
        proof {
            assert(self@.map_values(|m: T::Model| T::m_canon(m)).take(n as int)
                =~= self@.map_values(|m: T::Model| T::m_canon(m)));
        }
        out
    }
}

} // verus!
