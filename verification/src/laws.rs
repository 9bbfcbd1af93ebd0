//! Group-theoretic laws of the library, stated once over the models that
//! the public contracts use.

use vstd::prelude::*;
use crate::groups::{identity_in, seq_closed, seq_set_eq, CanonicalRepr, GroupElement};
use crate::groups::factor::{coset_equiv, CosetSide};

verus! {

/// Law: in a group whose closure has been checked, the product of any two
/// members is again a member.
pub proof fn lemma_closure_membership<T: GroupElement>(s: Seq<T::Model>, i: int, j: int)
    requires
        seq_closed::<T>(s),
        0 <= i < s.len(),
        0 <= j < s.len(),
    ensures
        s.contains(T::m_op(s[i], s[j])),
{
}

/// Law: a group has at most one two-sided identity; any two members that
/// both act as identities are equal.
pub proof fn lemma_identity_unique<T: GroupElement>(s: Seq<T::Model>, e1: T::Model, e2: T::Model)
    requires
        s.contains(e1),
        s.contains(e2),
        identity_in::<T>(s, e1),
        identity_in::<T>(s, e2),
    ensures
        e1 == e2,
{
    let i1 = choose|i: int| 0 <= i < s.len() && s[i] == e1;
    let i2 = choose|i: int| 0 <= i < s.len() && s[i] == e2;
    // e1 * e2 equals e1 because e2 is an identity, and equals e2 because e1
    // is an identity.
    assert(T::m_op(s[i1], e2) == s[i1]);
    assert(T::m_op(e1, s[i2]) == s[i2]);
}

// ---- coset equality is an equivalence relation ----
//
// These laws hold of any genuine subgroup of a genuine group. The checked
// constructor verifies closure only; the identity, inverse and
// associativity laws are the trust the element families carry, so each
// lemma names the instances of those laws it consumes.

/// Law: coset equality is reflexive. A coset equals itself on either side:
/// the representative's self-difference is the identity, which the subgroup
/// contains.
pub proof fn lemma_coset_eq_reflexive<T: GroupElement>(
    h: Seq<T::Model>,
    side: CosetSide,
    r: T::Model,
)
    requires
        h.contains(T::m_op(T::m_inv(r), r)),
        h.contains(T::m_op(r, T::m_inv(r))),
    ensures
        coset_equiv::<T>(side, r, h, side, r, h),
{
    assert(seq_set_eq::<T>(h, h)) by {
        assert(forall|i: int| 0 <= i < h.len() ==> h.contains(#[trigger] h[i]));
    }
}

/// Law: coset equality is symmetric. When rep1 and rep2 differ by a
/// subgroup member, so do rep2 and rep1, through that member's inverse,
/// which the subgroup also contains.
pub proof fn lemma_coset_eq_symmetric<T: GroupElement>(
    h1: Seq<T::Model>,
    h2: Seq<T::Model>,
    side: CosetSide,
    r1: T::Model,
    r2: T::Model,
)
    requires
        forall|i: int| 0 <= i < h1.len() ==> h1.contains(T::m_inv(#[trigger] h1[i])),
        T::m_inv(T::m_op(T::m_inv(r1), r2)) == T::m_op(T::m_inv(r2), r1),
        T::m_inv(T::m_op(r2, T::m_inv(r1))) == T::m_op(r1, T::m_inv(r2)),
        coset_equiv::<T>(side, r1, h1, side, r2, h2),
    ensures
        coset_equiv::<T>(side, r2, h2, side, r1, h1),
{
    // The two subgroup sequences hold one set, so membership transfers.
    assert(seq_set_eq::<T>(h2, h1));
    if side == CosetSide::Left {
        let d = T::m_op(T::m_inv(r1), r2);
        assert(h1.contains(d));
        let di = choose|i: int| 0 <= i < h1.len() && h1[i] == d;
        assert(h1.contains(T::m_inv(h1[di])));
        let k = choose|k: int| 0 <= k < h1.len() && h1[k] == T::m_inv(d);
        assert(h2.contains(h1[k]));
    } else {
        let d = T::m_op(r2, T::m_inv(r1));
        assert(h1.contains(d));
        let di = choose|i: int| 0 <= i < h1.len() && h1[i] == d;
        assert(h1.contains(T::m_inv(h1[di])));
        let k = choose|k: int| 0 <= k < h1.len() && h1[k] == T::m_inv(d);
        assert(h2.contains(h1[k]));
    }
}

/// Law: coset equality is transitive. The difference of rep1 and rep3 is
/// the product of the differences through rep2 (the middle representative
/// cancels against its inverse), and products of subgroup members stay in
/// the subgroup by closure.
pub proof fn lemma_coset_eq_transitive<T: GroupElement>(
    h1: Seq<T::Model>,
    h2: Seq<T::Model>,
    h3: Seq<T::Model>,
    side: CosetSide,
    r1: T::Model,
    r2: T::Model,
    r3: T::Model,
)
    requires
        seq_closed::<T>(h1),
        T::m_op(T::m_op(T::m_inv(r1), r2), T::m_op(T::m_inv(r2), r3))
            == T::m_op(T::m_inv(r1), r3),
        T::m_op(T::m_op(r3, T::m_inv(r2)), T::m_op(r2, T::m_inv(r1)))
            == T::m_op(r3, T::m_inv(r1)),
        coset_equiv::<T>(side, r1, h1, side, r2, h2),
        coset_equiv::<T>(side, r2, h2, side, r3, h3),
    ensures
        coset_equiv::<T>(side, r1, h1, side, r3, h3),
{
    // Set equality chains across the three subgroup sequences.
    assert(seq_set_eq::<T>(h1, h3)) by {
        assert forall|i: int| 0 <= i < h1.len() implies h3.contains(#[trigger] h1[i]) by {
            let k = choose|k: int| 0 <= k < h2.len() && h2[k] == h1[i];
            assert(h3.contains(h2[k]));
        }
        assert forall|i: int| 0 <= i < h3.len() implies h1.contains(#[trigger] h3[i]) by {
            let k = choose|k: int| 0 <= k < h2.len() && h2[k] == h3[i];
            assert(h1.contains(h2[k]));
        }
    }
    if side == CosetSide::Left {
        let d12 = T::m_op(T::m_inv(r1), r2);
        let d23 = T::m_op(T::m_inv(r2), r3);
        assert(h1.contains(d12));
        assert(h1.contains(d23)) by {
            let k = choose|k: int| 0 <= k < h2.len() && h2[k] == d23;
            assert(h1.contains(h2[k]));
        }
        lemma_subgroup_closed_at::<T>(h1, d12, d23);
    } else {
        let d12 = T::m_op(r2, T::m_inv(r1));
        let d23 = T::m_op(r3, T::m_inv(r2));
        assert(h1.contains(d12));
        assert(h1.contains(d23)) by {
            let k = choose|k: int| 0 <= k < h2.len() && h2[k] == d23;
            assert(h1.contains(h2[k]));
        }
        lemma_subgroup_closed_at::<T>(h1, d23, d12);
    }
}

/// Closure of a subgroup at two of its members.
proof fn lemma_subgroup_closed_at<T: GroupElement>(h: Seq<T::Model>, x: T::Model, y: T::Model)
    requires
        seq_closed::<T>(h),
        h.contains(x),
        h.contains(y),
    ensures
        h.contains(T::m_op(x, y)),
{
    let i = choose|i: int| 0 <= i < h.len() && h[i] == x;
    let j = choose|j: int| 0 <= j < h.len() && h[j] == y;
    assert(h.contains(T::m_op(h[i], h[j])));
}

/// Law: the coset product is well defined on the left convention. When a2
/// represents the same left coset as a1 and b2 the same as b1 over a normal
/// subgroup, the products a1*b1 and a2*b2 again represent one left coset.
/// The hypotheses name the instances of the closure, normality and
/// rearrangement laws consumed: the difference of the products factors as
/// the conjugated a-difference times the b-difference.
pub proof fn lemma_coset_op_well_defined_left<T: GroupElement>(
    h: Seq<T::Model>,
    ra1: T::Model,
    rb1: T::Model,
    ra2: T::Model,
    rb2: T::Model,
)
    requires
        seq_closed::<T>(h),
        coset_equiv::<T>(CosetSide::Left, ra1, h, CosetSide::Left, ra2, h),
        coset_equiv::<T>(CosetSide::Left, rb1, h, CosetSide::Left, rb2, h),
        // Normality instance: the a-difference conjugated by rb1 stays in h.
        h.contains(T::m_op(T::m_op(T::m_inv(rb1), T::m_op(T::m_inv(ra1), ra2)), rb1)),
        // Rearrangement instance: that conjugate times the b-difference is
        // the difference of the two products.
        T::m_op(T::m_op(T::m_op(T::m_inv(rb1), T::m_op(T::m_inv(ra1), ra2)), rb1),
            T::m_op(T::m_inv(rb1), rb2))
            == T::m_op(T::m_inv(T::m_op(ra1, rb1)), T::m_op(ra2, rb2)),
    ensures
        coset_equiv::<T>(CosetSide::Left, T::m_op(ra1, rb1), h,
            CosetSide::Left, T::m_op(ra2, rb2), h),
{
    let c = T::m_op(T::m_op(T::m_inv(rb1), T::m_op(T::m_inv(ra1), ra2)), rb1);
    let db = T::m_op(T::m_inv(rb1), rb2);
    assert(h.contains(db));
    lemma_subgroup_closed_at::<T>(h, c, db);
}

/// Law: the coset product is well defined on the right convention, with the
/// mirrored factorization.
pub proof fn lemma_coset_op_well_defined_right<T: GroupElement>(
    h: Seq<T::Model>,
    ra1: T::Model,
    rb1: T::Model,
    ra2: T::Model,
    rb2: T::Model,
)
    requires
        seq_closed::<T>(h),
        coset_equiv::<T>(CosetSide::Right, ra1, h, CosetSide::Right, ra2, h),
        coset_equiv::<T>(CosetSide::Right, rb1, h, CosetSide::Right, rb2, h),
        // Normality instance: the b-difference conjugated by ra2 stays in h.
        h.contains(T::m_op(T::m_op(ra2, T::m_op(rb2, T::m_inv(rb1))), T::m_inv(ra2))),
        // Rearrangement instance: that conjugate times the a-difference is
        // the difference of the two products.
        T::m_op(T::m_op(T::m_op(ra2, T::m_op(rb2, T::m_inv(rb1))), T::m_inv(ra2)),
            T::m_op(ra2, T::m_inv(ra1)))
            == T::m_op(T::m_op(ra2, rb2), T::m_inv(T::m_op(ra1, rb1))),
    ensures
        coset_equiv::<T>(CosetSide::Right, T::m_op(ra1, rb1), h,
            CosetSide::Right, T::m_op(ra2, rb2), h),
{
    let c = T::m_op(T::m_op(ra2, T::m_op(rb2, T::m_inv(rb1))), T::m_inv(ra2));
    let da = T::m_op(ra2, T::m_inv(ra1));
    assert(h.contains(da));
    lemma_subgroup_closed_at::<T>(h, c, da);
}

/// Law: the canonical encoding is deterministic. Two elements that are
/// equal under the element contract, meaning their models are equal,
/// produce identical canonical byte encodings.
pub proof fn lemma_canonical_deterministic<T: CanonicalRepr>(a: T::Model, b: T::Model)
    requires
        a == b,
    ensures
        T::m_canon(a) == T::m_canon(b),
{
}

} // verus!
