//! Structure-preserving maps between two finite groups, possibly of
//! different element types.

use vstd::prelude::*;
use core::marker::PhantomData;
use crate::error::AbsaglError;
use crate::groups::{
    contains_el, models, seq_closed, seq_wf, CheckedOp, FiniteGroup, GroupElement, GroupError,
};
use crate::groups::modulo::Modulo;
use crate::groups::Additive;

verus! {

/// Errors of homomorphism construction.
#[derive(Debug, PartialEq, Eq)]
pub enum HomomorphismError {
    /// The provided mapping does not satisfy f(a * b) = f(a) * f(b).
    PropertyNotHeld,
}

/// A mapping from one element family into another, with its mathematical
/// model: what the map sends each source model to.
pub trait GroupMap<G: GroupElement, H: GroupElement>: Sized {
    /// The mathematical function the mapping computes.
    spec fn spec_apply(self, g: G::Model) -> H::Model;

    /// Applies the mapping to one valid element.
    fn apply_map(&self, g: &G) -> (r: H)
        requires
            G::m_wf(g.model()),
        ensures
            r.model() == self.spec_apply(g.model()),
            H::m_wf(r.model()),
    ;
}

/// The homomorphism property of a mapping over a source element list: the
/// images of any two members are compatible, and the image of a product is
/// the product of the images.
pub open spec fn hom_property<G: GroupElement, H: GroupElement, F: GroupMap<G, H>>(
    f: F,
    s: Seq<G::Model>,
) -> bool {
    forall|i: int, j: int|
        0 <= i < s.len() && 0 <= j < s.len()
            ==> #[trigger] H::m_compat(f.spec_apply(s[i]), f.spec_apply(s[j]))
                && f.spec_apply(G::m_op(s[i], s[j]))
                    == H::m_op(f.spec_apply(s[i]), f.spec_apply(s[j]))
}

/// Pair (a, b) of the source list raises no objection: the images are
/// compatible and the homomorphism equation holds at it.
pub open spec fn pair_ok<G: GroupElement, H: GroupElement, F: GroupMap<G, H>>(
    f: F,
    s: Seq<G::Model>,
    a: int,
    b: int,
) -> bool {
    &&& H::m_compat(f.spec_apply(s[a]), f.spec_apply(s[b]))
    &&& f.spec_apply(G::m_op(s[a], s[b])) == H::m_op(f.spec_apply(s[a]), f.spec_apply(s[b]))
}

/// Every pair strictly before (i, j) in row-major scan order is fine.
pub open spec fn no_offense_before<G: GroupElement, H: GroupElement, F: GroupMap<G, H>>(
    f: F,
    s: Seq<G::Model>,
    i: int,
    j: int,
) -> bool {
    forall|a: int, b: int|
        0 <= a < s.len() && 0 <= b < s.len() && (a < i || (a == i && b < j))
            ==> #[trigger] pair_ok(f, s, a, b)
}

/// Some source member maps to the value `x`.
pub open spec fn has_preimage<G: GroupElement, H: GroupElement, F: GroupMap<G, H>>(
    f: F,
    s: Seq<G::Model>,
    x: H::Model,
) -> bool {
    exists|i: int| 0 <= i < s.len() && x == f.spec_apply(s[i])
}

/// A homomorphism f: G -> H: a stored mapping plus an optional description.
pub struct Homomorphism<G: GroupElement, H: GroupElement, F: GroupMap<G, H>> {
    pub mapping: F,
    pub description: Option<String>,
    pub _source_marker: PhantomData<G>,
    pub _target_marker: PhantomData<H>,
}

impl<G: GroupElement, H: GroupElement, F: GroupMap<G, H>> Homomorphism<G, H, F> {
    /// Creates a homomorphism without verification: the caller trusts the
    /// mapping to preserve the operation.
    pub fn new(mapping_fn: F, description: Option<String>) -> (r: Self)
        ensures
            r.mapping == mapping_fn,
    {
        Homomorphism {
            mapping: mapping_fn,
            description,
            _source_marker: PhantomData,
            _target_marker: PhantomData,
        }
    }

    /// Applies the homomorphism to an element of the source group.
    pub fn apply(&self, g: &G) -> (r: H)
        requires
            G::m_wf(g.model()),
        ensures
            r.model() == self.mapping.spec_apply(g.model()),
            H::m_wf(r.model()),
    {
        self.mapping.apply_map(g)
    }

    /// Verifies f(a * b) = f(a) * f(b) over every ordered pair of the source
    /// group, then wraps the mapping; fails with a property violation on the
    /// first unequal pair, or with the target family's error when two images
    /// are incompatible.
    pub fn try_new(
        source_group: &FiniteGroup<G>,
        mapping_fn: F,
        description: Option<String>,
    ) -> (r: Result<Self, AbsaglError>)
        where H: CheckedOp
        requires
            seq_wf::<G>(source_group@),
        ensures
            r matches Ok(h) ==> ({
                &&& h.mapping == mapping_fn
                &&& hom_property::<G, H, F>(mapping_fn, source_group@)
            }),
            r is Ok <==> hom_property::<G, H, F>(mapping_fn, source_group@),
            // The scan reports the first offending pair in row-major order:
            // an incompatibility surfaces as the target family's error, an
            // unequal product as the property violation.
            r matches Err(AbsaglError::Homomorphism(HomomorphismError::PropertyNotHeld))
                ==> exists|i: int, j: int|
                    0 <= i < source_group@.len() && 0 <= j < source_group@.len()
                    && H::m_compat(#[trigger] mapping_fn.spec_apply(source_group@[i]),
                        #[trigger] mapping_fn.spec_apply(source_group@[j]))
                    && mapping_fn.spec_apply(G::m_op(source_group@[i], source_group@[j]))
                        != H::m_op(mapping_fn.spec_apply(source_group@[i]),
                            mapping_fn.spec_apply(source_group@[j]))
                    && no_offense_before(mapping_fn, source_group@, i, j),
            (r is Err && !(r matches Err(AbsaglError::Homomorphism(
                HomomorphismError::PropertyNotHeld))))
                ==> exists|i: int, j: int|
                    0 <= i < source_group@.len() && 0 <= j < source_group@.len()
                    && !H::m_compat(#[trigger] mapping_fn.spec_apply(source_group@[i]),
                        #[trigger] mapping_fn.spec_apply(source_group@[j]))
                    && no_offense_before(mapping_fn, source_group@, i, j),
    {
        let elems = source_group.elements();
        let n = elems.len();
        let mut i: usize = 0;
        while i < n
            invariant
                i <= n,
                n == source_group@.len(),
                seq_wf::<G>(source_group@),
                models(elems@) == source_group@,
                forall|a: int, b: int|
                    0 <= a < i && 0 <= b < n
                        ==> #[trigger] H::m_compat(mapping_fn.spec_apply(source_group@[a]),
                            mapping_fn.spec_apply(source_group@[b])),
                forall|a: int, b: int|
                    0 <= a < i && 0 <= b < n
                        ==> mapping_fn.spec_apply(#[trigger] G::m_op(source_group@[a],
                            source_group@[b]))
                            == H::m_op(mapping_fn.spec_apply(source_group@[a]),
                                mapping_fn.spec_apply(source_group@[b])),
            decreases n - i,
        {
            let mut j: usize = 0;
            while j < n
                invariant
                    i < n,
                    j <= n,
                    n == source_group@.len(),
                    seq_wf::<G>(source_group@),
                    models(elems@) == source_group@,
                    forall|a: int, b: int|
                        0 <= a < i && 0 <= b < n
                            ==> #[trigger] H::m_compat(mapping_fn.spec_apply(source_group@[a]),
                                mapping_fn.spec_apply(source_group@[b])),
                    forall|a: int, b: int|
                        0 <= a < i && 0 <= b < n
                            ==> mapping_fn.spec_apply(#[trigger] G::m_op(source_group@[a],
                                source_group@[b]))
                                == H::m_op(mapping_fn.spec_apply(source_group@[a]),
                                    mapping_fn.spec_apply(source_group@[b])),
                    forall|b: int|
                        0 <= b < j
                            ==> #[trigger] H::m_compat(
                                mapping_fn.spec_apply(source_group@[i as int]),
                                mapping_fn.spec_apply(source_group@[b])),
                    forall|b: int|
                        0 <= b < j
                            ==> mapping_fn.spec_apply(#[trigger] G::m_op(
                                source_group@[i as int], source_group@[b]))
                                == H::m_op(mapping_fn.spec_apply(source_group@[i as int]),
                                    mapping_fn.spec_apply(source_group@[b])),
                decreases n - j,
            {
                proof {
                    assert(source_group@[i as int] == elems@[i as int].model());
                    assert(source_group@[j as int] == elems@[j as int].model());
                }
                let ab = elems[i].op(&elems[j]);
                proof {
                    G::lemma_op_wf(source_group@[i as int], source_group@[j as int]);
                }
                let f_of_op = mapping_fn.apply_map(&ab);
                let fa = mapping_fn.apply_map(&elems[i]);
                let fb = mapping_fn.apply_map(&elems[j]);
                let op_of_f = match fa.checked_op(&fb) {
                    Ok(v) => v,
                    Err(e) => {
                        proof {
                            assert(!H::m_compat(
                                mapping_fn.spec_apply(source_group@[i as int]),
                                mapping_fn.spec_apply(source_group@[j as int])));
                            assert forall|a: int, b: int|
                                0 <= a < source_group@.len() && 0 <= b < source_group@.len()
                                    && (a < i || (a == i && b < j)) implies
                                #[trigger] pair_ok(mapping_fn, source_group@, a, b) by {
                                if a < i {
                                    assert(H::m_compat(
                                        mapping_fn.spec_apply(source_group@[a]),
                                        mapping_fn.spec_apply(source_group@[b])));
                                    assert(mapping_fn.spec_apply(
                                        G::m_op(source_group@[a], source_group@[b]))
                                        == H::m_op(mapping_fn.spec_apply(source_group@[a]),
                                            mapping_fn.spec_apply(source_group@[b])));
                                } else {
                                    assert(H::m_compat(
                                        mapping_fn.spec_apply(source_group@[i as int]),
                                        mapping_fn.spec_apply(source_group@[b])));
                                    assert(mapping_fn.spec_apply(
                                        G::m_op(source_group@[i as int], source_group@[b]))
                                        == H::m_op(
                                            mapping_fn.spec_apply(source_group@[i as int]),
                                            mapping_fn.spec_apply(source_group@[b])));
                                }
                            }
                            assert(no_offense_before(mapping_fn, source_group@,
                                i as int, j as int));
                            H::lemma_wrap_not_hom(e);
                        }
                        return Err(H::wrap_err(e));
                    },
                };
                if !f_of_op.eq_el(&op_of_f) {
                    proof {
                        assert(mapping_fn.spec_apply(G::m_op(source_group@[i as int],
                            source_group@[j as int]))
                            != H::m_op(mapping_fn.spec_apply(source_group@[i as int]),
                                mapping_fn.spec_apply(source_group@[j as int])));
                        assert forall|a: int, b: int|
                            0 <= a < source_group@.len() && 0 <= b < source_group@.len()
                                && (a < i || (a == i && b < j)) implies
                            #[trigger] pair_ok(mapping_fn, source_group@, a, b) by {
                            if a < i {
                                assert(H::m_compat(
                                    mapping_fn.spec_apply(source_group@[a]),
                                    mapping_fn.spec_apply(source_group@[b])));
                                assert(mapping_fn.spec_apply(
                                    G::m_op(source_group@[a], source_group@[b]))
                                    == H::m_op(mapping_fn.spec_apply(source_group@[a]),
                                        mapping_fn.spec_apply(source_group@[b])));
                            } else {
                                assert(H::m_compat(
                                    mapping_fn.spec_apply(source_group@[i as int]),
                                    mapping_fn.spec_apply(source_group@[b])));
                                assert(mapping_fn.spec_apply(
                                    G::m_op(source_group@[i as int], source_group@[b]))
                                    == H::m_op(
                                        mapping_fn.spec_apply(source_group@[i as int]),
                                        mapping_fn.spec_apply(source_group@[b])));
                            }
                        }
                        assert(no_offense_before(mapping_fn, source_group@,
                            i as int, j as int));
                    }
                    return Err(AbsaglError::Homomorphism(HomomorphismError::PropertyNotHeld));
                }
                proof {
                    assert(H::m_compat(mapping_fn.spec_apply(source_group@[i as int]),
                        mapping_fn.spec_apply(source_group@[j as int])));
                    assert(mapping_fn.spec_apply(G::m_op(source_group@[i as int],
                        source_group@[j as int]))
                        == H::m_op(mapping_fn.spec_apply(source_group@[i as int]),
                            mapping_fn.spec_apply(source_group@[j as int])));
                }
                j = j + 1;
            }
            i = i + 1;
        }
        Ok(Homomorphism {
            mapping: mapping_fn,
            description,
            _source_marker: PhantomData,
            _target_marker: PhantomData,
        })
    }

    /// Computes the kernel: the source members whose image is the given
    /// target identity, re-checked through the checked group constructor.
    pub fn kernel(&self, source_group: &FiniteGroup<G>, identity_h: &H) -> (r: Result<
        FiniteGroup<G>,
        AbsaglError,
    >)
        requires
            seq_wf::<G>(source_group@),
        ensures
            ({
                let ker = source_group@.filter(
                    |m: G::Model| self.mapping.spec_apply(m) == identity_h.model());
                &&& (r matches Ok(k) ==> k@ == ker && seq_closed::<G>(ker))
                &&& (r is Err <==> !seq_closed::<G>(ker))
                &&& (r matches Err(e) ==> e matches AbsaglError::Group(GroupError::NotClosed))
            }),
    {
        let ghost pred = |m: G::Model| self.mapping.spec_apply(m) == identity_h.model();
        let elems = source_group.elements();
        let n = elems.len();
        let mut kernel_elements: Vec<G> = Vec::new();
        let mut i: usize = 0;
        proof {
            assert(source_group@.take(0) =~= Seq::<G::Model>::empty());
            reveal(Seq::filter);
        }
        while i < n
            invariant
                i <= n,
                n == source_group@.len(),
                seq_wf::<G>(source_group@),
                models(elems@) == source_group@,
                pred == (|m: G::Model| self.mapping.spec_apply(m) == identity_h.model()),
                models(kernel_elements@) == source_group@.take(i as int).filter(pred),
                forall|k: int| 0 <= k < models(kernel_elements@).len()
                    ==> source_group@.contains(#[trigger] models(kernel_elements@)[k]),
            decreases n - i,
        {
            proof {
                assert(source_group@[i as int] == elems@[i as int].model());
                reveal(Seq::filter);
                assert(source_group@.take(i as int + 1).drop_last()
                    =~= source_group@.take(i as int));
                assert(source_group@.take(i as int + 1).last() == source_group@[i as int]);
            }
            let img = self.mapping.apply_map(&elems[i]);
            if img.eq_el(identity_h) {
                let ghost old_models = models(kernel_elements@);
                kernel_elements.push(elems[i].clone_el());
                proof {
                    assert(models(kernel_elements@)
                        =~= old_models.push(source_group@[i as int]));
                    assert forall|k: int| 0 <= k < models(kernel_elements@).len() implies
                        source_group@.contains(#[trigger] models(kernel_elements@)[k]) by {
                        if k < old_models.len() {
                            assert(models(kernel_elements@)[k] == old_models[k]);
                        }
                    }
                }
            }
            i = i + 1;
        }
        proof {
            assert(source_group@.take(n as int) =~= source_group@);
            crate::groups::lemma_members_seq_wf::<G>(source_group@, models(kernel_elements@));
        }
        FiniteGroup::try_new(kernel_elements)
    }

    /// Computes the image: the mapped elements with duplicates removed,
    /// wrapped as an unchecked group. The caller's map sends every source
    /// member into one target domain.
    pub fn image(&self, source_group: &FiniteGroup<G>) -> (r: Result<FiniteGroup<H>, AbsaglError>)
        requires
            seq_wf::<G>(source_group@),
            forall|i: int, j: int|
                0 <= i < source_group@.len() && 0 <= j < source_group@.len()
                    ==> #[trigger] H::m_compat(self.mapping.spec_apply(source_group@[i]),
                        self.mapping.spec_apply(source_group@[j])),
        ensures
            r is Ok,
            r matches Ok(img) ==> ({
                &&& img@.no_duplicates()
                &&& forall|i: int| 0 <= i < source_group@.len()
                    ==> img@.contains(#[trigger] self.mapping.spec_apply(source_group@[i]))
                &&& forall|k: int| 0 <= k < img@.len()
                    ==> #[trigger] has_preimage(self.mapping, source_group@, img@[k])
            }),
    {
        let elems = source_group.elements();
        let n = elems.len();
        let mut image_elements: Vec<H> = Vec::new();
        let mut i: usize = 0;
        while i < n
            invariant
                i <= n,
                n == source_group@.len(),
                seq_wf::<G>(source_group@),
                models(elems@) == source_group@,
                models(image_elements@).no_duplicates(),
                forall|k: int| 0 <= k < i
                    ==> models(image_elements@).contains(
                        #[trigger] self.mapping.spec_apply(source_group@[k])),
                forall|k: int| 0 <= k < models(image_elements@).len()
                    ==> #[trigger] has_preimage(self.mapping, source_group@,
                        models(image_elements@)[k]),
                forall|k: int| 0 <= k < models(image_elements@).len()
                    ==> H::m_wf(#[trigger] models(image_elements@)[k]),
            decreases n - i,
        {
            proof {
                assert(source_group@[i as int] == elems@[i as int].model());
            }
            let img = self.mapping.apply_map(&elems[i]);
            if !contains_el(&image_elements, &img) {
                let ghost old_models = models(image_elements@);
                image_elements.push(img);
                proof {
                    assert(models(image_elements@)
                        =~= old_models.push(self.mapping.spec_apply(source_group@[i as int])));
                    assert forall|m: H::Model| old_models.contains(m) implies
                        models(image_elements@).contains(m) by {
                        let idx = choose|idx: int| 0 <= idx < old_models.len()
                            && old_models[idx] == m;
                        assert(models(image_elements@)[idx] == m);
                    }
                    assert(models(image_elements@)[old_models.len() as int]
                        == self.mapping.spec_apply(source_group@[i as int]));
                    assert(has_preimage(self.mapping, source_group@,
                        models(image_elements@)[old_models.len() as int]));
                }
            }
            i = i + 1;
        }
        proof {
            assert forall|a: int, b: int|
                0 <= a < models(image_elements@).len() && 0 <= b < models(image_elements@).len()
                implies #[trigger] H::m_compat(models(image_elements@)[a],
                    models(image_elements@)[b]) by {
                assert(has_preimage(self.mapping, source_group@, models(image_elements@)[a]));
                assert(has_preimage(self.mapping, source_group@, models(image_elements@)[b]));
                let ta = choose|t: int| 0 <= t < source_group@.len()
                    && models(image_elements@)[a] == self.mapping.spec_apply(source_group@[t]);
                let tb = choose|t: int| 0 <= t < source_group@.len()
                    && models(image_elements@)[b] == self.mapping.spec_apply(source_group@[t]);
                assert(H::m_compat(self.mapping.spec_apply(source_group@[ta]),
                    self.mapping.spec_apply(source_group@[tb])));
            }
        }
        let r = FiniteGroup::new(image_elements);
        proof {
            assert forall|k: int| 0 <= k < r@.len() implies
                #[trigger] has_preimage(self.mapping, source_group@, r@[k]) by {
                assert(r@[k] == models(image_elements@)[k]);
            }
        }
        Ok(r)
    }

    /// Checks injectivity: no two source members map to one image.
    pub fn is_injective(&self, source_group: &FiniteGroup<G>) -> (r: bool)
        requires
            seq_wf::<G>(source_group@),
        ensures
            r == (forall|i: int, j: int|
                0 <= i < j < source_group@.len()
                    ==> self.mapping.spec_apply(#[trigger] source_group@[i])
                        != self.mapping.spec_apply(#[trigger] source_group@[j])),
    {
        let elems = source_group.elements();
        let n = elems.len();
        let mut seen_images: Vec<H> = Vec::new();
        let mut i: usize = 0;
        while i < n
            invariant
                i <= n,
                n == source_group@.len(),
                seq_wf::<G>(source_group@),
                models(elems@) == source_group@,
                models(seen_images@).len() == i,
                forall|k: int| 0 <= k < i
                    ==> #[trigger] models(seen_images@)[k]
                        == self.mapping.spec_apply(source_group@[k]),
                forall|a: int, b: int| 0 <= a < b < i
                    ==> self.mapping.spec_apply(#[trigger] source_group@[a])
                        != self.mapping.spec_apply(#[trigger] source_group@[b]),
            decreases n - i,
        {
            proof {
                assert(source_group@[i as int] == elems@[i as int].model());
            }
            let img = self.mapping.apply_map(&elems[i]);
            if contains_el(&seen_images, &img) {
                proof {
                    let k = choose|k: int| 0 <= k < models(seen_images@).len()
                        && models(seen_images@)[k] == img.model();
                    assert(self.mapping.spec_apply(source_group@[k])
                        == self.mapping.spec_apply(source_group@[i as int]));
                }
                return false;
            }
            let ghost old_models = models(seen_images@);
            seen_images.push(img);
            proof {
                assert(models(seen_images@)
                    =~= old_models.push(self.mapping.spec_apply(source_group@[i as int])));
                assert forall|a: int, b: int| 0 <= a < b < i + 1 implies
                    self.mapping.spec_apply(#[trigger] source_group@[a])
                        != self.mapping.spec_apply(#[trigger] source_group@[b]) by {
                    if b == i {
                        assert(old_models[a] == self.mapping.spec_apply(source_group@[a]));
                        assert(!old_models.contains(
                            self.mapping.spec_apply(source_group@[i as int])));
                    }
                }
            }
            i = i + 1;
        }
        true
    }

    /// Checks surjectivity onto a target group: every target member is some
    /// source member's image, and every image lands in the target.
    pub fn is_surjective(&self, source_group: &FiniteGroup<G>, target_group: &FiniteGroup<H>) -> (r:
        Result<bool, AbsaglError>)
        requires
            seq_wf::<G>(source_group@),
        ensures
            r is Ok,
            r matches Ok(b) ==> b == ({
                &&& forall|i: int| 0 <= i < source_group@.len()
                    ==> target_group@.contains(
                        #[trigger] self.mapping.spec_apply(source_group@[i]))
                &&& forall|j: int| 0 <= j < target_group@.len()
                    ==> #[trigger] has_preimage(self.mapping, source_group@, target_group@[j])
            }),
    {
        let selems = source_group.elements();
        let telems = target_group.elements();
        let n = selems.len();
        let m = telems.len();
        // Every image lands inside the target.
        let mut i: usize = 0;
        while i < n
            invariant
                i <= n,
                n == source_group@.len(),
                seq_wf::<G>(source_group@),
                models(selems@) == source_group@,
                models(telems@) == target_group@,
                forall|k: int| 0 <= k < i
                    ==> target_group@.contains(
                        #[trigger] self.mapping.spec_apply(source_group@[k])),
            decreases n - i,
        {
            proof {
                assert(source_group@[i as int] == selems@[i as int].model());
            }
            let img = self.mapping.apply_map(&selems[i]);
            if !contains_el(telems, &img) {
                proof {
                    assert(!target_group@.contains(
                        self.mapping.spec_apply(source_group@[i as int])));
                }
                return Ok(false);
            }
            i = i + 1;
        }
        // Every target member has a preimage.
        let mut j: usize = 0;
        while j < m
            invariant
                j <= m,
                n == source_group@.len(),
                m == target_group@.len(),
                seq_wf::<G>(source_group@),
                models(selems@) == source_group@,
                models(telems@) == target_group@,
                forall|k: int| 0 <= k < n
                    ==> target_group@.contains(
                        #[trigger] self.mapping.spec_apply(source_group@[k])),
                forall|t: int| 0 <= t < j
                    ==> #[trigger] has_preimage(self.mapping, source_group@, target_group@[t]),
            decreases m - j,
        {
            let mut found = false;
            let mut k: usize = 0;
            while k < n
                invariant
                    k <= n,
                    j < m,
                    n == source_group@.len(),
                    m == target_group@.len(),
                    seq_wf::<G>(source_group@),
                    models(selems@) == source_group@,
                    models(telems@) == target_group@,
                    found ==> has_preimage(self.mapping, source_group@, target_group@[j as int]),
                    !found ==> forall|t: int| 0 <= t < k
                        ==> #[trigger] self.mapping.spec_apply(source_group@[t])
                            != target_group@[j as int],
                decreases n - k,
            {
                proof {
                    assert(source_group@[k as int] == selems@[k as int].model());
                    assert(target_group@[j as int] == telems@[j as int].model());
                }
                let img = self.mapping.apply_map(&selems[k]);
                if img.eq_el(&telems[j]) {
                    found = true;
                    proof {
                        assert(target_group@[j as int]
                            == self.mapping.spec_apply(source_group@[k as int]));
                        assert(has_preimage(self.mapping, source_group@,
                            target_group@[j as int]));
                    }
                }
                k = k + 1;
            }
            if !found {
                proof {
                    assert(!has_preimage(self.mapping, source_group@, target_group@[j as int]))
                        by {
                        if has_preimage(self.mapping, source_group@, target_group@[j as int]) {
                            let t = choose|t: int| 0 <= t < source_group@.len()
                                && target_group@[j as int]
                                    == self.mapping.spec_apply(source_group@[t]);
                            assert(self.mapping.spec_apply(source_group@[t])
                                != target_group@[j as int]);
                        }
                    }
                }
                return Ok(false);
            }
            j = j + 1;
        }
        Ok(true)
    }
}

/// Reduction of an additive residue into a smaller modulus: the classic
/// map x mod m from Z_n onto Z_m. A zero target modulus maps everything to
/// the trivial residue mod 1.
pub struct ModReduction {
    pub target_modulus: u64,
}

impl GroupMap<Modulo<Additive>, Modulo<Additive>> for ModReduction {
    open spec fn spec_apply(self, g: Modulo<Additive>) -> Modulo<Additive> {
        if self.target_modulus >= 1 {
            Modulo {
                value: ((g.value as nat) % (self.target_modulus as nat)) as u64,
                modulus: self.target_modulus,
                _marker: PhantomData,
            }
        } else {
            Modulo { value: 0, modulus: 1, _marker: PhantomData }
        }
    }

    fn apply_map(&self, g: &Modulo<Additive>) -> (r: Modulo<Additive>) {
        if self.target_modulus >= 1 {
            proof {
                vstd::arithmetic::div_mod::lemma_mod_bound(
                    g.value as int,
                    self.target_modulus as int,
                );
            }
            Modulo {
                value: g.value % self.target_modulus,
                modulus: self.target_modulus,
                _marker: PhantomData,
            }
        } else {
            Modulo { value: 0, modulus: 1, _marker: PhantomData }
        }
    }
}

/// The identity map on additive residues, with its modulus kept as a record
/// of the intended domain.
pub struct IdentityMap {
    pub modulus: u64,
}

impl GroupMap<Modulo<Additive>, Modulo<Additive>> for IdentityMap {
    open spec fn spec_apply(self, g: Modulo<Additive>) -> Modulo<Additive> {
        g
    }

    fn apply_map(&self, g: &Modulo<Additive>) -> (r: Modulo<Additive>) {
        Modulo { value: g.value, modulus: g.modulus, _marker: PhantomData }
    }
}

} // verus!
