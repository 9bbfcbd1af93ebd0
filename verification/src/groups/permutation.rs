//! Permutation group elements in dense array form, the alternating-group
//! refinement, and a sparse map-based form.

use vstd::prelude::*;
use vstd::seq_lib::*;
use vstd::set_lib::*;
use crate::error::AbsaglError;
use crate::groups::{CanonicalRepr, CheckedOp, GroupElement};
use crate::groups::{push_u64_be, spec_u64_be};
use crate::utils;
use crate::utils::{is_valid_mapping, lcm_nat, pow_nat};
use vstd::string::StringExecFns;

verus! {

/// Errors of the permutation element family.
#[derive(Debug)]
pub enum PermutationError {
    SizeNotMatch,
    CycleIndexOutOfBounds,
    OrderIsTooLarge,
    NonDisjointCycles,
    NotEvenPermutation,
}

/// A permutation in dense array form: `mapping[i]` is the image of index i.
#[derive(Clone, PartialEq, Debug, Eq, Hash)]
pub struct Permutation {
    pub mapping: Vec<usize>,
}

// ---- the mathematical model: a sequence of images ----

/// Composition: (a then-after b)[i] = a[b[i]]; b is applied first.
pub open spec fn spec_compose(a: Seq<usize>, b: Seq<usize>) -> Seq<usize> {
    Seq::new(b.len(), |i: int| a[b[i] as int])
}

/// The inverse mapping: position v holds the index that maps to v.
pub open spec fn spec_invert(m: Seq<usize>) -> Seq<usize> {
    Seq::new(m.len(), |v: int| choose|i: usize| i < m.len() && m[i as int] == v)
}

/// The identity mapping on n points.
pub open spec fn spec_id_perm(n: nat) -> Seq<usize> {
    Seq::new(n, |i: int| i as usize)
}

/// Some index of `m` maps to the value `v`.
pub open spec fn perm_hits(m: Seq<usize>, v: int) -> bool {
    exists|i: int| 0 <= i < m.len() && m[i] == v
}

/// A valid permutation hits every value below its length.
pub proof fn lemma_perm_surjective(m: Seq<usize>)
    requires
        is_valid_mapping(m),
    ensures
        forall|v: int| 0 <= v < m.len() ==> #[trigger] perm_hits(m, v),
{
    assert forall|v: int| 0 <= v < m.len() implies #[trigger] perm_hits(m, v) by {
        if !(exists|i: int| 0 <= i < m.len() && m[i] == v) {
            // Renumber every entry above v down by one: the result is a
            // duplicate-free sequence of m.len() values below m.len() - 1.
            let squeezed = m.map_values(|x: usize| if x > v { (x - 1) as usize } else { x });
            assert(forall|i: int| 0 <= i < squeezed.len() ==> squeezed[i] < m.len() - 1);
            assert(forall|i: int, j: int|
                0 <= i < j < squeezed.len() ==> squeezed[i] != squeezed[j]) by {
                assert forall|i: int, j: int|
                    0 <= i < j < squeezed.len() implies squeezed[i] != squeezed[j] by {
                    assert(m[i] != v && m[j] != v && m[i] != m[j]);
                }
            }
            lemma_no_dup_bound(squeezed, (m.len() - 1) as nat);
        }
    }
}

/// A duplicate-free sequence with entries below b has at most b entries.
pub proof fn lemma_no_dup_bound(s: Seq<usize>, b: nat)
    requires
        forall|i: int| 0 <= i < s.len() ==> s[i] < b,
        forall|i: int, j: int| 0 <= i < j < s.len() ==> s[i] != s[j],
    ensures
        s.len() <= b,
    decreases b,
{
    if s.len() > b {
        if b == 0 {
            assert(s[0] < 0);
        } else {
            let bm = (b - 1) as usize;
            if exists|i: int| 0 <= i < s.len() && s[i] == bm {
                let i0 = choose|i: int| 0 <= i < s.len() && s[i] == bm;
                let s2 = s.remove(i0);
                assert(forall|i: int| 0 <= i < s2.len() ==> s2[i] < b - 1) by {
                    assert forall|i: int| 0 <= i < s2.len() implies s2[i] < b - 1 by {
                        if i < i0 {
                            assert(s2[i] == s[i]);
                            assert(s[i] != s[i0]);
                        } else {
                            assert(s2[i] == s[i + 1]);
                            assert(s[i + 1] != s[i0]);
                        }
                    }
                }
                assert(forall|i: int, j: int| 0 <= i < j < s2.len() ==> s2[i] != s2[j]) by {
                    assert forall|i: int, j: int|
                        0 <= i < j < s2.len() implies s2[i] != s2[j] by {
                        if j < i0 {
                        } else if i < i0 {
                            assert(s2[i] == s[i] && s2[j] == s[j + 1]);
                        } else {
                            assert(s2[i] == s[i + 1] && s2[j] == s[j + 1]);
                        }
                    }
                }
                lemma_no_dup_bound(s2, (b - 1) as nat);
            } else {
                assert(forall|i: int| 0 <= i < s.len() ==> s[i] < b - 1);
                lemma_no_dup_bound(s, (b - 1) as nat);
            }
        }
    }
}

/// Composition of valid permutations is a valid permutation.
pub proof fn lemma_compose_wf(a: Seq<usize>, b: Seq<usize>)
    requires
        is_valid_mapping(a),
        is_valid_mapping(b),
        a.len() == b.len(),
    ensures
        is_valid_mapping(spec_compose(a, b)),
{
    let c = spec_compose(a, b);
    assert forall|i: int, j: int| 0 <= i < j < c.len() implies c[i] != c[j] by {
        if c[i] == c[j] {
            assert(a[b[i] as int] == a[b[j] as int]);
            assert(b[i] != b[j]);
            let x = b[i] as int;
            let y = b[j] as int;
            if x < y {
                assert(a[x] != a[y]);
            } else {
                assert(a[y] != a[x]);
            }
        }
    }
}

/// The inverse of a valid permutation is valid and undoes it.
pub proof fn lemma_invert_wf(m: Seq<usize>)
    requires
        is_valid_mapping(m),
        m.len() <= usize::MAX,
    ensures
        is_valid_mapping(spec_invert(m)),
        spec_invert(m).len() == m.len(),
        forall|i: int| 0 <= i < m.len() ==> spec_invert(m)[m[i] as int] == i,
        forall|v: int| 0 <= v < m.len() ==> m[spec_invert(m)[v] as int] == v,
{
    let inv = spec_invert(m);
    lemma_perm_surjective(m);
    assert forall|v: int| 0 <= v < m.len() implies inv[v] < m.len() && m[inv[v] as int] == v by {
        assert(perm_hits(m, v));
        let i0 = choose|i: int| 0 <= i < m.len() && m[i] == v;
        assert((i0 as usize) < m.len() && m[(i0 as usize) as int] == v);
        assert(exists|i: usize| i < m.len() && m[i as int] == v);
        let c = choose|i: usize| i < m.len() && m[i as int] == v;
        assert(c < m.len() && m[c as int] == v);
    }
    assert forall|i: int| 0 <= i < m.len() implies inv[m[i] as int] == i by {
        let v = m[i] as int;
        let c = inv[v];
        assert(m[c as int] == v);
        if (c as int) != i {
            if (c as int) < i {
                assert(m[c as int] != m[i]);
            } else {
                assert(m[i] != m[c as int]);
            }
        }
    }
    assert forall|v: int, w: int| 0 <= v < w < inv.len() implies inv[v] != inv[w] by {
        if inv[v] == inv[w] {
            assert(m[inv[v] as int] == v && m[inv[w] as int] == w);
        }
    }
}

// ---- cycle structure ----

/// The image of i after k applications of the mapping.
pub open spec fn iter_map(m: Seq<usize>, i: int, k: nat) -> int
    decreases k,
{
    if k == 0 {
        i
    } else {
        m[iter_map(m, i, (k - 1) as nat)] as int
    }
}

/// The length of the cycle through `start`, searched with bounded fuel.
pub open spec fn cycle_len_rec(m: Seq<usize>, start: int, cur: int, fuel: nat) -> nat
    decreases fuel,
{
    if fuel == 0 {
        0
    } else if m[cur] == start {
        1
    } else {
        1 + cycle_len_rec(m, start, m[cur] as int, (fuel - 1) as nat)
    }
}

/// The length of the cycle containing index i.
pub open spec fn spec_cycle_len(m: Seq<usize>, i: int) -> nat {
    cycle_len_rec(m, i, i, m.len())
}

/// Index i is the smallest index on its own cycle.
pub open spec fn is_cycle_min(m: Seq<usize>, i: int) -> bool {
    forall|k: nat| 1 <= k <= m.len() ==> #[trigger] iter_map(m, i, k) >= i
}

/// The number of cycles among the first n indices: one per cycle minimum.
pub open spec fn count_cycles(m: Seq<usize>, n: int) -> nat
    decreases n,
{
    if n <= 0 {
        0
    } else {
        count_cycles(m, n - 1) + (if is_cycle_min(m, n - 1) { 1nat } else { 0nat })
    }
}

/// A permutation is even iff the sum of (cycle length - 1) over its cycles
/// is even; that sum is the point count minus the cycle count.
pub open spec fn spec_is_even(m: Seq<usize>) -> bool {
    (m.len() - count_cycles(m, m.len() as int)) % 2 == 0
}

/// The order of a permutation: the least common multiple of its cycle
/// lengths, folded over all indices.
pub open spec fn order_rec(m: Seq<usize>, n: int) -> nat
    decreases n,
{
    if n <= 0 {
        1
    } else {
        lcm_nat(order_rec(m, n - 1), spec_cycle_len(m, n - 1))
    }
}

/// The order of a permutation.
pub open spec fn spec_perm_order(m: Seq<usize>) -> nat {
    order_rec(m, m.len() as int)
}

/// Iteration stays inside the index range.
proof fn lemma_iter_in_range(m: Seq<usize>, i: int, k: nat)
    requires
        is_valid_mapping(m),
        0 <= i < m.len(),
    ensures
        0 <= iter_map(m, i, k) < m.len(),
    decreases k,
{
    if k > 0 {
        lemma_iter_in_range(m, i, (k - 1) as nat);
    }
}

/// Iterates commute with adding a full period.
proof fn lemma_iter_shift(m: Seq<usize>, i: int, ll: nat, a: nat)
    requires
        is_valid_mapping(m),
        0 <= i < m.len(),
        iter_map(m, i, ll) == i,
    ensures
        iter_map(m, i, (a + ll) as nat) == iter_map(m, i, a),
    decreases a,
{
    if a == 0 {
    } else {
        lemma_iter_shift(m, i, ll, (a - 1) as nat);
    }
}

/// Every iterate equals some iterate with exponent below the period.
proof fn lemma_iter_mod(m: Seq<usize>, i: int, ll: nat, t: nat)
    requires
        is_valid_mapping(m),
        0 <= i < m.len(),
        1 <= ll,
        iter_map(m, i, ll) == i,
    ensures
        iter_map(m, i, t) == iter_map(m, i, (t % ll) as nat),
    decreases t,
{
    if t >= ll {
        lemma_iter_shift(m, i, ll, (t - ll) as nat);
        lemma_iter_mod(m, i, ll, (t - ll) as nat);
        assert((t as int - ll as int) % (ll as int) == (t as int) % (ll as int)) by {
            vstd::arithmetic::div_mod::lemma_mod_sub_multiples_vanish(t as int, ll as int);
        }
    } else {
        vstd::arithmetic::div_mod::lemma_small_mod(t, ll);
    }
}

/// Applying the map is injective, so equal iterates peel back to a period.
proof fn lemma_iter_peel(m: Seq<usize>, i: int, a: nat, b: nat)
    requires
        is_valid_mapping(m),
        0 <= i < m.len(),
        a < b,
        iter_map(m, i, a) == iter_map(m, i, b),
    ensures
        iter_map(m, i, (b - a) as nat) == i,
    decreases a,
{
    if a == 0 {
    } else {
        let x = iter_map(m, i, (a - 1) as nat);
        let y = iter_map(m, i, (b - 1) as nat);
        lemma_iter_in_range(m, i, (a - 1) as nat);
        lemma_iter_in_range(m, i, (b - 1) as nat);
        if x != y {
            if x < y {
                assert(m[x] != m[y]);
            } else {
                assert(m[y] != m[x]);
            }
        }
        lemma_iter_peel(m, i, (a - 1) as nat, (b - 1) as nat);
    }
}

/// Every cycle of a valid permutation returns within n steps.
proof fn lemma_cycle_returns(m: Seq<usize>, i: int)
    requires
        is_valid_mapping(m),
        m.len() <= usize::MAX,
        0 <= i < m.len(),
    ensures
        exists|ll: nat| 1 <= ll <= m.len() && #[trigger] iter_map(m, i, ll) == i,
{
    let n = m.len();
    let vs = Seq::new(n + 1, |k: int| iter_map(m, i, k as nat) as usize);
    assert(forall|k: int| 0 <= k < vs.len() ==> vs[k] < n) by {
        assert forall|k: int| 0 <= k < vs.len() implies vs[k] < n by {
            lemma_iter_in_range(m, i, k as nat);
        }
    }
    if forall|a: int, b: int| 0 <= a < b < vs.len() ==> vs[a] != vs[b] {
        lemma_no_dup_bound(vs, n);
    } else {
        let (a, b) = choose|a: int, b: int| 0 <= a < b < vs.len() && vs[a] == vs[b];
        lemma_iter_in_range(m, i, a as nat);
        lemma_iter_in_range(m, i, b as nat);
        assert(vs[a] == iter_map(m, i, a as nat) as usize);
        assert(vs[b] == iter_map(m, i, b as nat) as usize);
        assert(iter_map(m, i, a as nat) == iter_map(m, i, b as nat));
        lemma_iter_peel(m, i, a as nat, b as nat);
        assert(1 <= (b - a) as nat <= m.len());
        assert(iter_map(m, i, (b - a) as nat) == i);
    }
}

/// Relates the exec cycle walk to the fuel-based cycle length.
proof fn lemma_cycle_len_from_walk(m: Seq<usize>, i: int, k: nat)
    requires
        is_valid_mapping(m),
        0 <= i < m.len(),
        1 <= k <= m.len(),
        iter_map(m, i, k) == i,
        forall|t: nat| 1 <= t < k ==> #[trigger] iter_map(m, i, t) != i,
    ensures
        spec_cycle_len(m, i) == k,
{
    lemma_cycle_len_rec_walk(m, i, 0, k, m.len());
}

/// Generalized walk correspondence: from step s of the walk, the remaining
/// cycle length is k - s.
proof fn lemma_cycle_len_rec_walk(m: Seq<usize>, i: int, s: nat, k: nat, fuel: nat)
    requires
        is_valid_mapping(m),
        0 <= i < m.len(),
        s < k,
        iter_map(m, i, k) == i,
        forall|t: nat| 1 <= t < k ==> #[trigger] iter_map(m, i, t) != i,
        k - s <= fuel,
    ensures
        cycle_len_rec(m, i, iter_map(m, i, s), fuel) == k - s,
    decreases k - s,
{
    let cur = iter_map(m, i, s);
    lemma_iter_in_range(m, i, s);
    assert(m[cur] == iter_map(m, i, (s + 1) as nat));
    if s + 1 == k {
        assert(m[cur] == i);
    } else {
        assert(iter_map(m, i, (s + 1) as nat) != i);
        lemma_cycle_len_rec_walk(m, i, (s + 1) as nat, k, (fuel - 1) as nat);
    }
}

/// The fold of cycle counts stays within the index bound.
proof fn lemma_count_cycles_bound(m: Seq<usize>, n: int)
    requires
        n >= 0,
    ensures
        count_cycles(m, n) <= n,
    decreases n,
{
    if n > 0 {
        lemma_count_cycles_bound(m, n - 1);
    }
}

/// lcm of two positive numbers is positive and at least each argument.
proof fn lemma_lcm_lower(a: nat, b: nat)
    requires
        a >= 1,
        b >= 1,
    ensures
        lcm_nat(a, b) >= a,
        lcm_nat(a, b) >= b,
{
    utils::lemma_gcd_pos(a, b);
    utils::lemma_gcd_divides(a, b);
    let g = utils::gcd_nat(a, b);
    assert(g >= 1);
    let ka = choose|k: nat| a == #[trigger] (k * g);
    let kb = choose|k: nat| b == #[trigger] (k * g);
    assert(a as int * b as int == g as int * ((a * kb) as int)) by (nonlinear_arith)
        requires b == kb * g;
    vstd::arithmetic::div_mod::lemma_div_multiples_vanish((a * kb) as int, g as int);
    assert((a * b) as int / g as int == (a * kb) as int);
    assert(lcm_nat(a, b) == a * kb);
    assert(kb >= 1) by (nonlinear_arith)
        requires b == kb * g, b >= 1;
    assert(a * kb >= a) by (nonlinear_arith)
        requires kb >= 1, a >= 1;
    assert(a as int * b as int == g as int * ((b * ka) as int)) by (nonlinear_arith)
        requires a == ka * g;
    vstd::arithmetic::div_mod::lemma_div_multiples_vanish((b * ka) as int, g as int);
    assert((a * b) as int / g as int == (b * ka) as int);
    assert(lcm_nat(a, b) == b * ka);
    assert(ka >= 1) by (nonlinear_arith)
        requires a == ka * g, a >= 1;
    assert(b * ka >= b) by (nonlinear_arith)
        requires ka >= 1, b >= 1;
}

/// The order fold is positive and monotone in its bound.
proof fn lemma_order_rec_props(m: Seq<usize>, n: int)
    requires
        is_valid_mapping(m),
        m.len() <= usize::MAX,
        0 <= n <= m.len(),
    ensures
        order_rec(m, n) >= 1,
        forall|p: int| 0 <= p <= n ==> #[trigger] order_rec(m, p) <= order_rec(m, n),
    decreases n,
{
    if n == 0 {
    } else {
        lemma_order_rec_props(m, n - 1);
        lemma_cycle_returns(m, n - 1);
        assert(spec_cycle_len(m, n - 1) >= 1) by {
            let l2 = choose|l2: nat| 1 <= l2 <= m.len() && #[trigger] iter_map(m, n - 1, l2) == n - 1;
            let first = cycle_first_return(m, n - 1, l2);
            lemma_cycle_len_from_walk(m, n - 1, first);
        }
        lemma_lcm_lower(order_rec(m, n - 1), spec_cycle_len(m, n - 1));
    }
}

/// The least period of the cycle through i, below a known period.
proof fn cycle_first_return(m: Seq<usize>, i: int, ll: nat) -> (first: nat)
    requires
        is_valid_mapping(m),
        0 <= i < m.len(),
        1 <= ll <= m.len(),
        iter_map(m, i, ll) == i,
    ensures
        1 <= first <= ll,
        iter_map(m, i, first) == i,
        forall|t: nat| 1 <= t < first ==> #[trigger] iter_map(m, i, t) != i,
    decreases ll,
{
    if exists|t: nat| 1 <= t < ll && #[trigger] iter_map(m, i, t) == i {
        let t0 = choose|t: nat| 1 <= t < ll && #[trigger] iter_map(m, i, t) == i;
        cycle_first_return(m, i, t0)
    } else {
        ll
    }
}

impl GroupElement for Permutation {
    /// The mathematical value is the image sequence.
    type Model = Seq<usize>;

    open spec fn model(self) -> Seq<usize> {
        self.mapping@
    }

    open spec fn m_wf(m: Seq<usize>) -> bool {
        is_valid_mapping(m) && m.len() <= usize::MAX
    }

    open spec fn m_compat(a: Seq<usize>, b: Seq<usize>) -> bool {
        a.len() == b.len()
    }

    open spec fn m_op(a: Seq<usize>, b: Seq<usize>) -> Seq<usize> {
        spec_compose(a, b)
    }

    open spec fn m_inv(a: Seq<usize>) -> Seq<usize> {
        spec_invert(a)
    }

    proof fn lemma_compat_refl(a: Seq<usize>) {
    }

    proof fn lemma_compat_sym(a: Seq<usize>, b: Seq<usize>) {
    }

    proof fn lemma_compat_trans(a: Seq<usize>, b: Seq<usize>, c: Seq<usize>) {
    }

    proof fn lemma_op_wf(a: Seq<usize>, b: Seq<usize>) {
        lemma_compose_wf(a, b);
    }

    proof fn lemma_inv_wf(a: Seq<usize>) {
        lemma_invert_wf(a);
    }

    /// Composes two permutations; b is applied first.
    fn op(&self, other: &Self) -> (r: Self) {
        let n = other.mapping.len();
        let mut mapping: Vec<usize> = Vec::new();
        let mut i: usize = 0;
        while i < n
            invariant
                i <= n,
                n == other.mapping@.len() == self.mapping@.len(),
                is_valid_mapping(self.mapping@),
                is_valid_mapping(other.mapping@),
                mapping@.len() == i,
                forall|k: int| 0 <= k < i
                    ==> mapping@[k] == self.mapping@[other.mapping@[k] as int],
            decreases n - i,
        {
            let image = self.mapping[other.mapping[i]];
            mapping.push(image);
            i = i + 1;
        }
        proof {
            assert(mapping@ =~= spec_compose(self.mapping@, other.mapping@));
        }
        Permutation { mapping }
    }

    /// Inverts the permutation by swapping index and value roles.
    fn inverse(&self) -> (r: Self) {
        let n = self.mapping.len();
        let mut inv: Vec<usize> = Vec::new();
        let mut k: usize = 0;
        while k < n
            invariant
                inv.len() == k <= n,
                forall|i: int| 0 <= i < k ==> inv[i] == 0,
            decreases n - k,
        {
            inv.push(0);
            k = k + 1;
        }
        let mut i: usize = 0;
        while i < n
            invariant
                i <= n,
                n == self.mapping@.len(),
                inv@.len() == n,
                is_valid_mapping(self.mapping@),
                forall|k2: int| 0 <= k2 < i ==> inv@[self.mapping@[k2] as int] == k2,
            decreases n - i,
        {
            let v = self.mapping[i];
            inv.set(v, i);
            proof {
                assert forall|k2: int| 0 <= k2 < i + 1 implies
                    inv@[self.mapping@[k2] as int] == k2 by {
                    if k2 < i {
                        assert(self.mapping@[k2] != self.mapping@[i as int]);
                    }
                }
            }
            i = i + 1;
        }
        proof {
            lemma_invert_wf(self.mapping@);
            lemma_perm_surjective(self.mapping@);
            assert forall|v: int| 0 <= v < n implies inv@[v] == spec_invert(self.mapping@)[v] by {
                assert(perm_hits(self.mapping@, v));
                let i0 = choose|i2: int| 0 <= i2 < n && self.mapping@[i2] == v;
                assert(inv@[self.mapping@[i0] as int] == i0);
                assert(self.mapping@[spec_invert(self.mapping@)[v] as int] == v);
                let c = spec_invert(self.mapping@)[v] as int;
                if c != i0 {
                    if c < i0 {
                        assert(self.mapping@[c] != self.mapping@[i0]);
                    } else {
                        assert(self.mapping@[i0] != self.mapping@[c]);
                    }
                }
            }
            assert(inv@ =~= spec_invert(self.mapping@));
        }
        Permutation { mapping: inv }
    }

    fn eq_el(&self, other: &Self) -> (r: bool) {
        let n = self.mapping.len();
        if n != other.mapping.len() {
            return false;
        }
        let mut i: usize = 0;
        while i < n
            invariant
                i <= n,
                n == self.mapping@.len() == other.mapping@.len(),
                forall|k: int| 0 <= k < i ==> self.mapping@[k] == other.mapping@[k],
            decreases n - i,
        {
            if self.mapping[i] != other.mapping[i] {
                return false;
            }
            i = i + 1;
        }
        proof {
            assert(self.mapping@ =~= other.mapping@);
        }
        true
    }

    fn compatible(&self, other: &Self) -> (r: bool) {
        self.mapping.len() == other.mapping.len()
    }

    fn clone_el(&self) -> (r: Self) {
        let n = self.mapping.len();
        let mut mapping: Vec<usize> = Vec::new();
        let mut i: usize = 0;
        while i < n
            invariant
                i <= n,
                n == self.mapping@.len(),
                mapping@.len() == i,
                forall|k: int| 0 <= k < i ==> mapping@[k] == self.mapping@[k],
            decreases n - i,
        {
            mapping.push(self.mapping[i]);
            i = i + 1;
        }
        proof {
            assert(mapping@ =~= self.mapping@);
        }
        Permutation { mapping }
    }
}

// ---- counting distinct permutations, for generation bounds ----

/// The base-w digit encoding of a sequence, read from the front.
pub open spec fn seq_encode(s: Seq<usize>, w: nat) -> nat
    decreases s.len(),
{
    if s.len() == 0 {
        0
    } else {
        (s[0] + w * seq_encode(s.drop_first(), w)) as nat
    }
}

proof fn lemma_seq_encode_bound(s: Seq<usize>, w: nat)
    requires
        forall|i: int| 0 <= i < s.len() ==> s[i] < w,
    ensures
        seq_encode(s, w) < pow_nat(w, s.len()),
    decreases s.len(),
{
    if s.len() == 0 {
    } else {
        lemma_seq_encode_bound(s.drop_first(), w);
        assert(s[0] + w * seq_encode(s.drop_first(), w) < pow_nat(w, s.len())) by (nonlinear_arith)
            requires
                s[0] < w,
                seq_encode(s.drop_first(), w) < pow_nat(w, (s.len() - 1) as nat),
                pow_nat(w, s.len()) == w * pow_nat(w, (s.len() - 1) as nat),
        ;
    }
}

proof fn lemma_seq_encode_injective(s1: Seq<usize>, s2: Seq<usize>, w: nat)
    requires
        w >= 1,
        s1.len() == s2.len(),
        forall|i: int| 0 <= i < s1.len() ==> s1[i] < w,
        forall|i: int| 0 <= i < s2.len() ==> s2[i] < w,
        seq_encode(s1, w) == seq_encode(s2, w),
    ensures
        s1 =~= s2,
    decreases s1.len(),
{
    if s1.len() > 0 {
        let e1 = seq_encode(s1.drop_first(), w);
        let e2 = seq_encode(s2.drop_first(), w);
        assert(s1[0] + w * e1 == s2[0] + w * e2);
        assert(s1[0] + w * e1 == e1 * w + s1[0]) by (nonlinear_arith);
        assert(s2[0] + w * e2 == e2 * w + s2[0]) by (nonlinear_arith);
        vstd::arithmetic::div_mod::lemma_fundamental_div_mod_converse(
            (s1[0] + w * e1) as int, w as int, e1 as int, s1[0] as int);
        vstd::arithmetic::div_mod::lemma_fundamental_div_mod_converse(
            (s2[0] + w * e2) as int, w as int, e2 as int, s2[0] as int);
        assert(s1[0] == s2[0] && e1 == e2);
        lemma_seq_encode_injective(s1.drop_first(), s2.drop_first(), w);
        assert(s1 =~= Seq::empty().push(s1[0]) + s1.drop_first());
        assert(s2 =~= Seq::empty().push(s2[0]) + s2.drop_first());
    }
}

/// There are at most w^n distinct sequences of length n over values < w.
pub proof fn lemma_distinct_bounded_seqs(ms: Seq<Seq<usize>>, n: nat, w: nat)
    requires
        w >= 1,
        forall|i: int| 0 <= i < ms.len()
            ==> (#[trigger] ms[i]).len() == n && forall|k: int| 0 <= k < n ==> ms[i][k] < w,
        forall|i: int, j: int| 0 <= i < j < ms.len() ==> ms[i] != ms[j],
    ensures
        ms.len() <= pow_nat(w, n),
{
    let encs = Seq::new(ms.len(), |i: int| seq_encode(ms[i], w));
    assert(forall|i: int| 0 <= i < encs.len() ==> encs[i] < pow_nat(w, n)) by {
        assert forall|i: int| 0 <= i < encs.len() implies encs[i] < pow_nat(w, n) by {
            lemma_seq_encode_bound(ms[i], w);
        }
    }
    assert(forall|i: int, j: int| 0 <= i < j < encs.len() ==> encs[i] != encs[j]) by {
        assert forall|i: int, j: int| 0 <= i < j < encs.len() implies encs[i] != encs[j] by {
            if encs[i] == encs[j] {
                lemma_seq_encode_injective(ms[i], ms[j], w);
            }
        }
    }
    lemma_no_dup_bound_int(encs.map_values(|e: nat| e as int), pow_nat(w, n));
    assert(encs.map_values(|e: nat| e as int).len() == ms.len());
}

/// A duplicate-free integer sequence with entries in [0, b) has at most b
/// entries.
proof fn lemma_no_dup_bound_int(s: Seq<int>, b: nat)
    requires
        forall|i: int| 0 <= i < s.len() ==> 0 <= #[trigger] s[i] < b,
        forall|i: int, j: int| 0 <= i < j < s.len() ==> s[i] != s[j],
    ensures
        s.len() <= b,
    decreases b,
{
    if s.len() > b {
        if b == 0 {
            assert(s[0] < 0);
        } else {
            if exists|i: int| 0 <= i < s.len() && s[i] == b - 1 {
                let i0 = choose|i: int| 0 <= i < s.len() && s[i] == b - 1;
                let s2 = s.remove(i0);
                assert(forall|i: int| 0 <= i < s2.len() ==> 0 <= #[trigger] s2[i] < b - 1) by {
                    assert forall|i: int| 0 <= i < s2.len() implies 0 <= #[trigger] s2[i] < b - 1 by {
                        if i < i0 {
                            assert(s2[i] == s[i]);
                            assert(s[i] != s[i0]);
                        } else {
                            assert(s2[i] == s[i + 1]);
                            assert(s[i + 1] != s[i0]);
                        }
                    }
                }
                assert(forall|i: int, j: int| 0 <= i < j < s2.len() ==> s2[i] != s2[j]) by {
                    assert forall|i: int, j: int|
                        0 <= i < j < s2.len() implies s2[i] != s2[j] by {
                        if j < i0 {
                        } else if i < i0 {
                            assert(s2[i] == s[i] && s2[j] == s[j + 1]);
                        } else {
                            assert(s2[i] == s[i + 1] && s2[j] == s[j + 1]);
                        }
                    }
                }
                lemma_no_dup_bound_int(s2, (b - 1) as nat);
            } else {
                assert(forall|i: int| 0 <= i < s.len() ==> 0 <= #[trigger] s[i] < b - 1);
                lemma_no_dup_bound_int(s, (b - 1) as nat);
            }
        }
    }
}

// ---- powers of a permutation ----

/// The k-th power of a permutation under composition.
pub open spec fn spec_pow_perm(m: Seq<usize>, e: nat) -> Seq<usize>
    decreases e,
{
    if e == 0 {
        spec_id_perm(m.len())
    } else {
        spec_compose(m, spec_pow_perm(m, (e - 1) as nat))
    }
}

proof fn lemma_pow_perm_wf(m: Seq<usize>, e: nat)
    requires
        is_valid_mapping(m),
        m.len() <= usize::MAX,
    ensures
        is_valid_mapping(spec_pow_perm(m, e)),
        spec_pow_perm(m, e).len() == m.len(),
    decreases e,
{
    if e == 0 {
    } else {
        lemma_pow_perm_wf(m, (e - 1) as nat);
        lemma_compose_wf(m, spec_pow_perm(m, (e - 1) as nat));
    }
}

/// Composition is associative on range-valid mappings of one length.
proof fn lemma_compose_assoc(a: Seq<usize>, b: Seq<usize>, c: Seq<usize>)
    requires
        a.len() == b.len() == c.len(),
        forall|i: int| 0 <= i < b.len() ==> b[i] < b.len(),
        forall|i: int| 0 <= i < c.len() ==> c[i] < c.len(),
    ensures
        spec_compose(spec_compose(a, b), c) =~= spec_compose(a, spec_compose(b, c)),
{
}

pub proof fn lemma_compose_id(m: Seq<usize>)
    requires
        forall|i: int| 0 <= i < m.len() ==> m[i] < m.len(),
        m.len() <= usize::MAX,
    ensures
        spec_compose(m, spec_id_perm(m.len())) =~= m,
        spec_compose(spec_id_perm(m.len()), m) =~= m,
{
}

proof fn lemma_pow_perm_add(m: Seq<usize>, a: nat, b: nat)
    requires
        is_valid_mapping(m),
        m.len() <= usize::MAX,
    ensures
        spec_pow_perm(m, (a + b) as nat)
            == spec_compose(spec_pow_perm(m, a), spec_pow_perm(m, b)),
    decreases a,
{
    lemma_pow_perm_wf(m, a);
    lemma_pow_perm_wf(m, b);
    lemma_pow_perm_wf(m, (a + b) as nat);
    if a == 0 {
        lemma_compose_id(spec_pow_perm(m, b));
        assert(spec_compose(spec_id_perm(m.len()), spec_pow_perm(m, b)) =~= spec_pow_perm(m, b));
    } else {
        lemma_pow_perm_add(m, (a - 1) as nat, b);
        lemma_pow_perm_wf(m, (a - 1) as nat);
        lemma_compose_assoc(m, spec_pow_perm(m, (a - 1) as nat), spec_pow_perm(m, b));
        assert(spec_pow_perm(m, (a + b) as nat)
            == spec_compose(m, spec_pow_perm(m, (a + b - 1) as nat)));
    }
}

// ---- cycles walk helpers ----

/// Walks the cycle of index i and reports whether i is its minimum.
fn cycle_min_walk(m: &Vec<usize>, i: usize) -> (r: bool)
    requires
        is_valid_mapping(m@),
        i < m@.len(),
    ensures
        r == is_cycle_min(m@, i as int),
{
    let n = m.len();
    let mut j: usize = m[i];
    let mut k: usize = 1;
    proof {
        lemma_cycle_returns(m@, i as int);
        assert(iter_map(m@, i as int, 0) == i);
        assert(iter_map(m@, i as int, 1) == m@[i as int]);
    }
    while j != i && k < n
        invariant
            is_valid_mapping(m@),
            i < n,
            n == m@.len(),
            1 <= k <= n,
            j < n,
            j == iter_map(m@, i as int, k as nat),
            forall|t: nat| 1 <= t < k ==> #[trigger] iter_map(m@, i as int, t) > i,
        decreases n - k,
    {
        if j < i {
            return false;
        }
        proof {
            assert(iter_map(m@, i as int, k as nat) > i);
            lemma_iter_in_range(m@, i as int, k as nat);
        }
        j = m[j];
        k = k + 1;
    }
    if j == i {
        proof {
            assert forall|t: nat| 1 <= t <= m@.len() implies
                #[trigger] iter_map(m@, i as int, t) >= i by {
                lemma_iter_mod(m@, i as int, k as nat, t);
                let tm = (t % (k as nat)) as nat;
                if tm == 0 {
                } else {
                    assert(1 <= tm < k);
                }
            }
        }
        true
    } else {
        proof {
            let ll = choose|ll: nat| 1 <= ll <= m@.len()
                && #[trigger] iter_map(m@, i as int, ll) == i;
            assert(k == n);
            if ll < k {
                assert(iter_map(m@, i as int, ll) > i);
            }
            assert(false);
        }
        false
    }
}

/// Walks the cycle of index i and returns its length.
fn cycle_len_walk(m: &Vec<usize>, i: usize) -> (r: usize)
    requires
        is_valid_mapping(m@),
        i < m@.len(),
    ensures
        r == spec_cycle_len(m@, i as int),
        1 <= r <= m@.len(),
{
    let n = m.len();
    let mut j: usize = m[i];
    let mut k: usize = 1;
    proof {
        lemma_cycle_returns(m@, i as int);
        assert(iter_map(m@, i as int, 0) == i);
        assert(iter_map(m@, i as int, 1) == m@[i as int]);
    }
    while j != i && k < n
        invariant
            is_valid_mapping(m@),
            i < n,
            n == m@.len(),
            1 <= k <= n,
            j < n,
            j == iter_map(m@, i as int, k as nat),
            forall|t: nat| 1 <= t < k ==> #[trigger] iter_map(m@, i as int, t) != i,
        decreases n - k,
    {
        proof {
            lemma_iter_in_range(m@, i as int, k as nat);
        }
        j = m[j];
        k = k + 1;
    }
    proof {
        if j != i {
            // The walk exhausted n steps without returning: impossible.
            let ll = choose|ll: nat| 1 <= ll <= m@.len()
                && #[trigger] iter_map(m@, i as int, ll) == i;
            assert(k == n);
            if ll < k {
                assert(iter_map(m@, i as int, ll) != i);
            }
            assert(false);
        }
        lemma_cycle_len_from_walk(m@, i as int, k as nat);
    }
    k
}

impl Permutation {
    /// Creates a new permutation from a mapping; the caller pre-validates
    /// that the mapping is a bijection.
    pub fn new(mapping: Vec<usize>) -> (r: Self)
        requires
            is_valid_mapping(mapping@),
        ensures
            r.mapping@ == mapping@,
    {
        Permutation { mapping }
    }

    /// Creates a new permutation, rejecting an invalid mapping.
    pub fn try_new(mapping: Vec<usize>) -> (r: Result<Self, AbsaglError>)
        ensures
            r is Ok <==> is_valid_mapping(mapping@),
            r matches Ok(p) ==> p.mapping@ == mapping@,
            r matches Err(e)
                ==> e matches AbsaglError::Permutation(PermutationError::NonDisjointCycles),
    {
        if !utils::is_mapping_valid(&mapping) {
            return Err(AbsaglError::Permutation(PermutationError::NonDisjointCycles));
        }
        Ok(Permutation { mapping })
    }

    /// Returns the mapping of the permutation.
    pub fn mapping(&self) -> (r: &Vec<usize>)
        ensures
            r@ == self.mapping@,
    {
        &self.mapping
    }

    /// Returns the identity permutation on `size` points.
    pub fn identity(size: usize) -> (r: Self)
        ensures
            r.mapping@ == spec_id_perm(size as nat),
    {
        let mut mapping: Vec<usize> = Vec::new();
        let mut i: usize = 0;
        while i < size
            invariant
                i <= size,
                mapping@.len() == i,
                forall|k: int| 0 <= k < i ==> mapping@[k] == k,
            decreases size - i,
        {
            mapping.push(i);
            i = i + 1;
        }
        proof {
            assert(mapping@ =~= spec_id_perm(size as nat));
        }
        Permutation { mapping }
    }

    /// Decides the parity of the permutation by its cycle decomposition:
    /// a cycle of length k contributes k - 1 transpositions.
    pub fn is_even(&self) -> (r: bool)
        requires
            is_valid_mapping(self.mapping@),
        ensures
            r == spec_is_even(self.mapping@),
    {
        let n = self.mapping.len();
        let mut cycles: usize = 0;
        let mut i: usize = 0;
        while i < n
            invariant
                i <= n,
                n == self.mapping@.len(),
                is_valid_mapping(self.mapping@),
                cycles == count_cycles(self.mapping@, i as int),
                cycles <= i,
            decreases n - i,
        {
            if cycle_min_walk(&self.mapping, i) {
                cycles = cycles + 1;
            }
            i = i + 1;
        }
        proof {
            lemma_count_cycles_bound(self.mapping@, n as int);
        }
        (n - cycles) % 2 == 0
    }

    /// Computes the order of the permutation: the least common multiple of
    /// its cycle lengths.
    pub fn order(&self) -> (r: usize)
        requires
            is_valid_mapping(self.mapping@),
            spec_perm_order(self.mapping@) <= usize::MAX,
        ensures
            r == spec_perm_order(self.mapping@),
    {
        let n = self.mapping.len();
        let mut acc: usize = 1;
        let mut i: usize = 0;
        proof {
            lemma_order_rec_props(self.mapping@, n as int);
        }
        while i < n
            invariant
                i <= n,
                n == self.mapping@.len(),
                is_valid_mapping(self.mapping@),
                spec_perm_order(self.mapping@) <= usize::MAX,
                acc == order_rec(self.mapping@, i as int),
            decreases n - i,
        {
            let cl = cycle_len_walk(&self.mapping, i);
            proof {
                lemma_order_rec_props(self.mapping@, i as int + 1);
                lemma_order_rec_props(self.mapping@, n as int);
                assert(order_rec(self.mapping@, i as int + 1) <= order_rec(self.mapping@, n as int));
            }
            acc = utils::lcm(acc, cl);
            i = i + 1;
        }
        acc
    }

    /// A human-readable form of the permutation: its nontrivial cycles in
    /// cycle notation, or a marker for the identity.
    pub fn to_display_string(&self) -> (r: String)
        requires
            is_valid_mapping(self.mapping@),
    {
        let n = self.mapping.len();
        let mut visited: Vec<bool> = Vec::new();
        let mut t: usize = 0;
        while t < n
            invariant
                visited@.len() == t <= n,
            decreases n - t,
        {
            visited.push(false);
            t = t + 1;
        }
        let mut out = String::new();
        let mut any = false;
        let mut i: usize = 0;
        while i < n
            invariant
                i <= n,
                n == self.mapping@.len(),
                visited@.len() == n,
                is_valid_mapping(self.mapping@),
            decreases n - i,
        {
            if !visited[i] && self.mapping[i] != i {
                out.append("(");
                crate::groups::push_decimal(&mut out, i as u64);
                visited.set(i, true);
                let mut j: usize = self.mapping[i];
                let mut steps: usize = 0;
                proof {
                    lemma_cycle_returns(self.mapping@, i as int);
                    assert(iter_map(self.mapping@, i as int, 0) == i);
                    assert(iter_map(self.mapping@, i as int, 1) == self.mapping@[i as int]);
                }
                while j != i && steps < n
                    invariant
                        is_valid_mapping(self.mapping@),
                        n == self.mapping@.len(),
                        visited@.len() == n,
                        i < n,
                        j < n,
                        steps <= n,
                        j == iter_map(self.mapping@, i as int, (steps + 1) as nat),
                        forall|q: nat| 1 <= q <= steps
                            ==> #[trigger] iter_map(self.mapping@, i as int, q) != i,
                    decreases n - steps,
                {
                    out.append(" ");
                    crate::groups::push_decimal(&mut out, j as u64);
                    visited.set(j, true);
                    proof {
                        lemma_iter_in_range(self.mapping@, i as int, (steps + 1) as nat);
                    }
                    j = self.mapping[j];
                    steps = steps + 1;
                }
                proof {
                    if j != i {
                        // The walk cannot exhaust n steps without returning.
                        let ll = choose|ll: nat| 1 <= ll <= self.mapping@.len()
                            && #[trigger] iter_map(self.mapping@, i as int, ll) == i;
                        assert(steps == n);
                        assert(iter_map(self.mapping@, i as int, ll) != i);
                        assert(false);
                    }
                }
                out.append(") ");
                any = true;
            }
            i = i + 1;
        }
        if !any {
            out.append("(e)");
        }
        out
    }

    /// Raises the permutation to the power `exp` by repeated squaring.
    pub fn pow(&self, exp: u32) -> (r: Self)
        requires
            is_valid_mapping(self.mapping@),
        ensures
            r.mapping@ == spec_pow_perm(self.mapping@, exp as nat),
    {
        let ghost m0 = self.mapping@;
        let mut res = Permutation::identity(self.mapping.len());
        if exp == 0 {
            return res;
        }
        let mut base = self.clone_el();
        let mut e: u32 = exp;
        let ghost mut be: nat = 1nat;
        proof {
            lemma_pow_perm_wf(m0, 1);
            assert(spec_pow_perm(m0, 0) == spec_id_perm(m0.len()));
            assert(spec_pow_perm(m0, 1) =~= m0) by {
                lemma_compose_id(m0);
                assert(spec_pow_perm(m0, 1) == spec_compose(m0, spec_pow_perm(m0, 0)));
            }
            lemma_pow_perm_wf(m0, exp as nat);
            lemma_compose_id(spec_pow_perm(m0, exp as nat));
            assert(1nat * (exp as nat) == exp as nat) by (nonlinear_arith);
            assert(spec_compose(spec_id_perm(m0.len()), spec_pow_perm(m0, exp as nat))
                =~= spec_pow_perm(m0, exp as nat));
        }
        while e > 0
            invariant
                is_valid_mapping(m0),
                m0.len() <= usize::MAX,
                is_valid_mapping(res.mapping@),
                is_valid_mapping(base.mapping@),
                res.mapping@.len() == m0.len(),
                base.mapping@.len() == m0.len(),
                base.mapping@ == spec_pow_perm(m0, be),
                spec_compose(res.mapping@, spec_pow_perm(m0, (be * e) as nat))
                    =~= spec_pow_perm(m0, exp as nat),
            decreases e,
        {
            if e % 2 == 1 {
                proof {
                    lemma_pow_perm_wf(m0, be);
                    lemma_pow_perm_wf(m0, (be * (e - 1)) as nat);
                    lemma_pow_perm_add(m0, be, (be * (e - 1)) as nat);
                    assert(be * e == be + be * (e - 1)) by (nonlinear_arith);
                    lemma_compose_assoc(res.mapping@, base.mapping@,
                        spec_pow_perm(m0, (be * (e - 1)) as nat));
                }
                res = res.op(&base);
                proof {
                    assert(spec_compose(res.mapping@, spec_pow_perm(m0, (be * (e - 1)) as nat))
                        =~= spec_pow_perm(m0, exp as nat));
                }
                let ghost old_be = be;
                proof {
                    lemma_pow_perm_wf(m0, (2 * be) as nat);
                    lemma_pow_perm_add(m0, be, be);
                    assert(be + be == 2 * be) by (nonlinear_arith);
                }
                base = base.op(&base);
                proof {
                    be = (2 * be) as nat;
                    assert(base.mapping@ == spec_pow_perm(m0, be));
                    assert(old_be * (e - 1) == be * ((e - 1) / 2)) by (nonlinear_arith)
                        requires e % 2 == 1, be == 2 * old_be;
                }
                e = (e - 1) / 2;
            } else {
                proof {
                    lemma_pow_perm_wf(m0, be);
                    lemma_pow_perm_add(m0, be, be);
                    assert(be + be == 2 * be) by (nonlinear_arith);
                }
                let ghost old_be = be;
                base = base.op(&base);
                proof {
                    be = (2 * be) as nat;
                    assert(base.mapping@ == spec_pow_perm(m0, be));
                    assert(old_be * e == be * (e / 2)) by (nonlinear_arith)
                        requires e % 2 == 0, be == 2 * old_be;
                }
                e = e / 2;
            }
            proof {
                lemma_pow_perm_wf(m0, be);
            }
        }
        proof {
            assert(be * 0 == 0) by (nonlinear_arith);
            lemma_compose_id(res.mapping@);
            assert(spec_compose(res.mapping@, spec_pow_perm(m0, 0)) =~= res.mapping@);
        }
        res
    }
}

// ---- building from cycles ----

/// The mapping after wiring the first i steps of one cycle: position c[i-1]
/// is sent to the next cycle entry, wrapping around.
pub open spec fn apply_cycle_step(m: Seq<usize>, c: Seq<usize>, i: int) -> Seq<usize>
    decreases i,
{
    if i <= 0 {
        m
    } else {
        apply_cycle_step(m, c, i - 1).update(c[i - 1] as int, c[i % c.len() as int])
    }
}

/// The mapping after applying the first k cycles; cycles shorter than two
/// entries change nothing.
pub open spec fn apply_cycles(m: Seq<usize>, cs: Seq<Seq<usize>>, k: int) -> Seq<usize>
    decreases k,
{
    if k <= 0 {
        m
    } else {
        let prev = apply_cycles(m, cs, k - 1);
        if cs[k - 1].len() < 2 {
            prev
        } else {
            apply_cycle_step(prev, cs[k - 1], cs[k - 1].len() as int)
        }
    }
}

/// The mapping described by a list of cycles over n points.
pub open spec fn spec_from_cycles(cs: Seq<Seq<usize>>, n: nat) -> Seq<usize> {
    apply_cycles(spec_id_perm(n), cs, cs.len() as int)
}

/// Some cycle entry falls outside 0..n.
pub open spec fn cycles_out_of_bounds(cs: Seq<Seq<usize>>, n: nat) -> bool {
    exists|c: int, i: int|
        0 <= c < cs.len() && 0 <= i < cs[c].len() && #[trigger] cs[c][i] >= n
}

// ---- Heap's algorithm ----

/// n factorial.
pub open spec fn spec_factorial(n: nat) -> nat
    decreases n,
{
    if n == 0 {
        1
    } else {
        n * spec_factorial((n - 1) as nat)
    }
}

/// Exchanging two positions of a mapping.
pub open spec fn spec_swap(arr: Seq<usize>, x: int, y: int) -> Seq<usize> {
    arr.update(x, arr[y]).update(y, arr[x])
}

/// Heap's enumeration of the arrangements of the first k entries of `arr`:
/// the emitted mappings, in emission order, and the array state the run
/// leaves behind. This is the defining recurrence of the algorithm; its
/// classical property, that the emissions enumerate every arrangement
/// exactly once, is not re-proved here.
pub open spec fn heap_enum(k: nat, arr: Seq<usize>) -> (Seq<Seq<usize>>, Seq<usize>)
    decreases k, 1int, 0int,
{
    if k <= 1 {
        (seq![arr], arr)
    } else {
        let first = heap_enum((k - 1) as nat, arr);
        let rest = heap_loop(k, first.1, 0);
        (first.0 + rest.0, rest.1)
    }
}

/// The loop tail of Heap's enumeration, from iteration i onward.
pub open spec fn heap_loop(k: nat, arr: Seq<usize>, i: nat) -> (Seq<Seq<usize>>, Seq<usize>)
    decreases k, 0int, k - i,
{
    if k < 2 || i + 1 >= k {
        (Seq::empty(), arr)
    } else {
        let sw = if k % 2 == 0 {
            spec_swap(arr, i as int, k - 1)
        } else {
            spec_swap(arr, 0, k - 1)
        };
        let inner = heap_enum((k - 1) as nat, sw);
        let rest = heap_loop(k, inner.1, (i + 1) as nat);
        (inner.0 + rest.0, rest.1)
    }
}

/// Swaps two positions of a mapping, preserving validity.
fn swap_positions(arr: &mut Vec<usize>, x: usize, y: usize)
    requires
        x < old(arr)@.len(),
        y < old(arr)@.len(),
        is_valid_mapping(old(arr)@),
    ensures
        final(arr)@.len() == old(arr)@.len(),
        is_valid_mapping(final(arr)@),
        final(arr)@ == spec_swap(old(arr)@, x as int, y as int),
{
    let a = arr[x];
    let b = arr[y];
    arr.set(x, b);
    arr.set(y, a);
    proof {
        let o = old(arr)@;
        let f = arr@;
        assert forall|i: int, j: int| 0 <= i < j < f.len() implies f[i] != f[j] by {
            let oi = if i == x { y as int } else if i == y { x as int } else { i };
            let oj = if j == x { y as int } else if j == y { x as int } else { j };
            assert(f[i] == o[oi] && f[j] == o[oj]);
            if oi < oj {
                assert(o[oi] != o[oj]);
            } else if oj < oi {
                assert(o[oj] != o[oi]);
            }
        }
    }
}

/// The recursive core of Heap's algorithm: appends every arrangement of the
/// first k entries of `arr` to `output`.
fn heap_recursive(k: usize, arr: &mut Vec<usize>, output: &mut Vec<Permutation>)
    requires
        1 <= k <= old(arr)@.len(),
        is_valid_mapping(old(arr)@),
    ensures
        final(arr)@.len() == old(arr)@.len(),
        is_valid_mapping(final(arr)@),
        final(output)@.len() == old(output)@.len() + spec_factorial(k as nat),
        forall|i: int| 0 <= i < old(output)@.len() ==> final(output)@[i] == old(output)@[i],
        forall|i: int|
            old(output)@.len() <= i < final(output)@.len()
                ==> is_valid_mapping((#[trigger] final(output)@[i]).mapping@)
                    && final(output)@[i].mapping@.len() == old(arr)@.len(),
        crate::groups::models(final(output)@)
            == crate::groups::models(old(output)@) + heap_enum(k as nat, old(arr)@).0,
        final(arr)@ == heap_enum(k as nat, old(arr)@).1,
    decreases k,
{
    let n = arr.len();
    let ghost arr_start = arr@;
    if k == 1 {
        let snapshot = clone_mapping(arr);
        output.push(Permutation { mapping: snapshot });
        proof {
            assert(spec_factorial(1) == 1 * spec_factorial(0));
            assert(crate::groups::models(output@)
                =~= crate::groups::models(old(output)@) + heap_enum(1, arr_start).0);
        }
    } else {
        heap_recursive(k - 1, arr, output);
        let ghost base_len = output@.len();
        let ghost arr0 = arr@;
        proof {
            assert(heap_enum(k as nat, arr_start).0
                == heap_enum((k - 1) as nat, arr_start).0 + heap_loop(k as nat, arr0, 0).0);
            assert(crate::groups::models(output@)
                =~= (crate::groups::models(old(output)@)
                    + heap_enum((k - 1) as nat, arr_start).0) + Seq::<Seq<usize>>::empty());
        }
        let mut i: usize = 0;
        while i < k - 1
            invariant
                2 <= k <= n,
                n == arr@.len(),
                is_valid_mapping(arr@),
                i <= k - 1,
                output@.len() == base_len + i * spec_factorial((k - 1) as nat),
                forall|t: int| 0 <= t < old(output)@.len() ==> output@[t] == old(output)@[t],
                base_len == old(output)@.len() + spec_factorial((k - 1) as nat),
                forall|t: int|
                    old(output)@.len() <= t < output@.len()
                        ==> is_valid_mapping((#[trigger] output@[t]).mapping@)
                            && output@[t].mapping@.len() == n,
                heap_enum(k as nat, arr_start).0
                    == crate::groups::models(output@).skip(
                        crate::groups::models(old(output)@).len() as int)
                        + heap_loop(k as nat, arr@, i as nat).0,
                heap_enum(k as nat, arr_start).1 == heap_loop(k as nat, arr@, i as nat).1,
                crate::groups::models(output@).len() >= crate::groups::models(old(output)@).len(),
                forall|t: int| 0 <= t < crate::groups::models(old(output)@).len()
                    ==> crate::groups::models(output@)[t]
                        == crate::groups::models(old(output)@)[t],
            decreases k - 1 - i,
        {
            let ghost arr_iter = arr@;
            if k % 2 == 0 {
                swap_positions(arr, i, k - 1);
            } else {
                swap_positions(arr, 0, k - 1);
            }
            let ghost sw = arr@;
            let ghost out_before = crate::groups::models(output@);
            heap_recursive(k - 1, arr, output);
            proof {
                assert(base_len + i * spec_factorial((k - 1) as nat)
                    + spec_factorial((k - 1) as nat)
                    == base_len + (i + 1) * spec_factorial((k - 1) as nat)) by (nonlinear_arith);
                // One loop step peels one inner enumeration off the tail.
                assert(heap_loop(k as nat, arr_iter, i as nat).0
                    == heap_enum((k - 1) as nat, sw).0
                        + heap_loop(k as nat, arr@, (i + 1) as nat).0);
                assert(heap_loop(k as nat, arr_iter, i as nat).1
                    == heap_loop(k as nat, arr@, (i + 1) as nat).1);
                let done = crate::groups::models(old(output)@).len() as int;
                assert(crate::groups::models(output@).skip(done)
                    =~= out_before.skip(done) + heap_enum((k - 1) as nat, sw).0);
                assert(heap_enum(k as nat, arr_start).0
                    =~= crate::groups::models(output@).skip(done)
                        + heap_loop(k as nat, arr@, (i + 1) as nat).0);
            }
            i = i + 1;
        }
        proof {
            assert(spec_factorial(k as nat) == k * spec_factorial((k - 1) as nat));
            assert(spec_factorial((k - 1) as nat) + (k - 1) * spec_factorial((k - 1) as nat)
                == k * spec_factorial((k - 1) as nat)) by (nonlinear_arith);
            assert(heap_loop(k as nat, arr@, (k - 1) as nat).0 =~= Seq::<Seq<usize>>::empty());
            let done = crate::groups::models(old(output)@).len() as int;
            assert(heap_enum(k as nat, arr_start).0
                =~= crate::groups::models(output@).skip(done));
            assert(crate::groups::models(output@)
                =~= crate::groups::models(old(output)@)
                    + crate::groups::models(output@).skip(done));
        }
    }
}

/// An explicit copy of a mapping vector.
fn clone_mapping(arr: &Vec<usize>) -> (r: Vec<usize>)
    ensures
        r@ == arr@,
{
    let n = arr.len();
    let mut out: Vec<usize> = Vec::new();
    let mut i: usize = 0;
    while i < n
        invariant
            i <= n,
            n == arr@.len(),
            out@.len() == i,
            forall|k: int| 0 <= k < i ==> out@[k] == arr@[k],
        decreases n - i,
    {
        out.push(arr[i]);
        i = i + 1;
    }
    proof {
        assert(out@ =~= arr@);
    }
    out
}

/// Distinct valid mappings of length n number at most (n+1)^n.
proof fn lemma_model_count_bound(ms: Seq<Seq<usize>>, n: nat)
    requires
        forall|i: int|
            0 <= i < ms.len() ==> is_valid_mapping(#[trigger] ms[i]) && ms[i].len() == n,
        forall|i: int, j: int| 0 <= i < j < ms.len() ==> ms[i] != ms[j],
    ensures
        ms.len() <= pow_nat((n + 1) as nat, n),
{
    assert(forall|i: int| 0 <= i < ms.len()
        ==> (#[trigger] ms[i]).len() == n && forall|k: int| 0 <= k < n ==> ms[i][k] < n + 1);
    lemma_distinct_bounded_seqs(ms, n, (n + 1) as nat);
}

// ---- reachability by right-multiplication with generators ----

/// The set reachable from `start` in at most k right-multiplications by
/// members of `gens`.
pub open spec fn rm_iter(gens: Seq<Seq<usize>>, start: Set<Seq<usize>>, k: nat) -> Set<Seq<usize>>
    decreases k,
{
    if k == 0 {
        start
    } else {
        let p = rm_iter(gens, start, (k - 1) as nat);
        p.union(Set::new(|y: Seq<usize>| exists|x: Seq<usize>, i: int|
            p.contains(x) && 0 <= i < gens.len() && y == #[trigger] spec_compose(x, gens[i])))
    }
}

/// Reachability from `start` by right-multiplying with generators.
pub open spec fn rm_reach(gens: Seq<Seq<usize>>, start: Set<Seq<usize>>, x: Seq<usize>) -> bool {
    exists|k: nat| rm_iter(gens, start, k).contains(x)
}

/// Start members are reachable.
pub proof fn lemma_rm_base(gens: Seq<Seq<usize>>, start: Set<Seq<usize>>, x: Seq<usize>)
    requires
        start.contains(x),
    ensures
        rm_reach(gens, start, x),
{
    assert(rm_iter(gens, start, 0).contains(x));
}

/// One more right-multiplication keeps reachability.
pub proof fn lemma_rm_step(
    gens: Seq<Seq<usize>>,
    start: Set<Seq<usize>>,
    x: Seq<usize>,
    i: int,
)
    requires
        rm_reach(gens, start, x),
        0 <= i < gens.len(),
    ensures
        rm_reach(gens, start, spec_compose(x, gens[i])),
{
    let k = choose|k: nat| rm_iter(gens, start, k).contains(x);
    assert(rm_iter(gens, start, (k + 1) as nat).contains(spec_compose(x, gens[i])));
}

/// A member list that contains its start set, is a fixpoint under
/// right-multiplication by the generators, and absorbs start products, is
/// closed under composing with any reachable permutation: composition
/// re-associates one generator at a time.
pub proof fn lemma_rm_fixpoint_closed(
    gens: Seq<Seq<usize>>,
    start: Set<Seq<usize>>,
    n: nat,
    s: Seq<Seq<usize>>,
    a: Seq<usize>,
    b: Seq<usize>,
    k: nat,
)
    requires
        forall|i: int| 0 <= i < s.len()
            ==> is_valid_mapping(#[trigger] s[i]) && s[i].len() == n,
        forall|i: int| 0 <= i < gens.len()
            ==> is_valid_mapping(#[trigger] gens[i]) && gens[i].len() == n,
        forall|m: Seq<usize>| start.contains(m) ==> is_valid_mapping(m) && m.len() == n,
        forall|m: Seq<usize>, i: int|
            s.contains(m) && 0 <= i < gens.len()
                ==> s.contains(#[trigger] spec_compose(m, gens[i])),
        forall|m: Seq<usize>, m2: Seq<usize>|
            s.contains(m) && start.contains(m2)
                ==> s.contains(#[trigger] spec_compose(m, m2)),
        s.contains(a),
        rm_iter(gens, start, k).contains(b),
    ensures
        s.contains(spec_compose(a, b)),
    decreases k,
{
    if k == 0 {
    } else {
        let p = rm_iter(gens, start, (k - 1) as nat);
        if p.contains(b) {
            lemma_rm_fixpoint_closed(gens, start, n, s, a, b, (k - 1) as nat);
        } else {
            let (x, i) = choose|x: Seq<usize>, i: int|
                p.contains(x) && 0 <= i < gens.len() && b == #[trigger] spec_compose(x, gens[i]);
            lemma_rm_fixpoint_closed(gens, start, n, s, a, x, (k - 1) as nat);
            // a (x g) == (a x) g, so the fixpoint absorbs the product.
            let ai = choose|t: int| 0 <= t < s.len() && s[t] == a;
            lemma_rm_valid(gens, start, n, x, (k - 1) as nat);
            lemma_compose_assoc(a, x, gens[i]);
            assert(s.contains(spec_compose(spec_compose(a, x), gens[i])));
        }
    }
}

/// Reachable permutations are valid of the common length, provided the
/// start members and generators are.
pub proof fn lemma_rm_valid(
    gens: Seq<Seq<usize>>,
    start: Set<Seq<usize>>,
    n: nat,
    x: Seq<usize>,
    k: nat,
)
    requires
        forall|m: Seq<usize>| start.contains(m) ==> is_valid_mapping(m) && m.len() == n,
        forall|i: int| 0 <= i < gens.len()
            ==> is_valid_mapping(#[trigger] gens[i]) && gens[i].len() == n,
        rm_iter(gens, start, k).contains(x),
    ensures
        is_valid_mapping(x),
        x.len() == n,
    decreases k,
{
    if k == 0 {
    } else {
        let p = rm_iter(gens, start, (k - 1) as nat);
        if p.contains(x) {
            lemma_rm_valid(gens, start, n, x, (k - 1) as nat);
        } else {
            let (y, i) = choose|y: Seq<usize>, i: int|
                p.contains(y) && 0 <= i < gens.len() && x == #[trigger] spec_compose(y, gens[i]);
            lemma_rm_valid(gens, start, n, y, (k - 1) as nat);
            lemma_compose_wf(y, gens[i]);
        }
    }
}

/// Reachability stays inside the generated closure of a base covering the
/// start set and the generators.
pub proof fn lemma_rm_in_generated(
    gens: Seq<Seq<usize>>,
    start: Set<Seq<usize>>,
    base: Set<Seq<usize>>,
    x: Seq<usize>,
    k: nat,
)
    requires
        forall|m: Seq<usize>| start.contains(m)
            ==> crate::groups::in_generated::<Permutation>(base, m),
        forall|i: int| 0 <= i < gens.len()
            ==> crate::groups::in_generated::<Permutation>(base, #[trigger] gens[i]),
        rm_iter(gens, start, k).contains(x),
    ensures
        crate::groups::in_generated::<Permutation>(base, x),
    decreases k,
{
    if k == 0 {
    } else {
        let p = rm_iter(gens, start, (k - 1) as nat);
        if p.contains(x) {
            lemma_rm_in_generated(gens, start, base, x, (k - 1) as nat);
        } else {
            let (y, i) = choose|y: Seq<usize>, i: int|
                p.contains(y) && 0 <= i < gens.len() && x == #[trigger] spec_compose(y, gens[i]);
            lemma_rm_in_generated(gens, start, base, y, (k - 1) as nat);
            crate::groups::lemma_generated_op::<Permutation>(base, y, gens[i]);
        }
    }
}

/// The transposition of the first two points.
pub open spec fn spec_transposition(n: nat) -> Seq<usize> {
    Seq::new(n, |i: int| if i == 0 { 1usize } else if i == 1 { 0usize } else { i as usize })
}

/// The full cycle sending each point to its successor.
pub open spec fn spec_long_cycle(n: nat) -> Seq<usize> {
    Seq::new(n, |i: int| if i == n - 1 { 0usize } else { (i + 1) as usize })
}

/// Products of even members of the symmetric group's closure are even:
/// the condition under which the even members form a closed set.
pub open spec fn even_products_stay_even(n: nat) -> bool {
    forall|a: Seq<usize>, b: Seq<usize>|
        crate::groups::in_generated::<Permutation>(symmetric_base(n), a)
            && crate::groups::in_generated::<Permutation>(symmetric_base(n), b)
            && spec_is_even(a) && spec_is_even(b)
            ==> spec_is_even(#[trigger] spec_compose(a, b))
}

/// The generating set of the symmetric group on n points: the identity, an
/// adjacent transposition, and the full cycle.
pub open spec fn symmetric_base(n: nat) -> Set<Seq<usize>> {
    Set::empty().insert(spec_id_perm(n)).insert(spec_transposition(n)).insert(spec_long_cycle(n))
}

/// Every member of a permutation list is valid with length n, and no two
/// members are equal.
pub open spec fn perm_list_ok(ms: Seq<Seq<usize>>, n: nat) -> bool {
    &&& forall|i: int|
        0 <= i < ms.len() ==> is_valid_mapping(#[trigger] ms[i]) && ms[i].len() == n
    &&& forall|i: int, j: int| 0 <= i < j < ms.len() ==> ms[i] != ms[j]
}

impl Permutation {
    /// Builds a permutation from a list of index cycles over n points;
    /// rejects out-of-range indices and non-disjoint cycles.
    pub fn from_cycles(cycles: &Vec<Vec<usize>>, n: usize) -> (r: Result<Self, AbsaglError>)
        ensures
            ({
                let cs = cycles@.map_values(|c: Vec<usize>| c@);
                let m = spec_from_cycles(cs, n as nat);
                &&& (r matches Err(AbsaglError::Permutation(
                    PermutationError::CycleIndexOutOfBounds))
                        <==> cycles_out_of_bounds(cs, n as nat))
                &&& (r is Ok <==> !cycles_out_of_bounds(cs, n as nat) && is_valid_mapping(m))
                &&& (r matches Ok(p) ==> p.mapping@ == m)
                &&& (r matches Err(e) ==> (e matches AbsaglError::Permutation(
                    PermutationError::CycleIndexOutOfBounds) || e matches AbsaglError::Permutation(
                    PermutationError::NonDisjointCycles)))
            }),
    {
        let ghost cs = cycles@.map_values(|c: Vec<usize>| c@);
        // Check for out-of-bounds indices.
        let mut ci: usize = 0;
        while ci < cycles.len()
            invariant
                ci <= cycles@.len(),
                cs == cycles@.map_values(|c: Vec<usize>| c@),
                forall|c: int, i: int|
                    0 <= c < ci && 0 <= i < cs[c].len() ==> #[trigger] cs[c][i] < n,
            decreases cycles@.len() - ci,
        {
            let cycle = &cycles[ci];
            let mut ii: usize = 0;
            while ii < cycle.len()
                invariant
                    ci < cycles@.len(),
                    ii <= cycle@.len(),
                    cs == cycles@.map_values(|c: Vec<usize>| c@),
                    cycle@ == cs[ci as int],
                    forall|i: int| 0 <= i < ii ==> #[trigger] cs[ci as int][i] < n,
                decreases cycle@.len() - ii,
            {
                if cycle[ii] >= n {
                    return Err(AbsaglError::Permutation(PermutationError::CycleIndexOutOfBounds));
                }
                ii = ii + 1;
            }
            ci = ci + 1;
        }

        let mut mapping: Vec<usize> = Vec::new();
        let mut i: usize = 0;
        while i < n
            invariant
                i <= n,
                mapping@.len() == i,
                forall|k: int| 0 <= k < i ==> mapping@[k] == k,
            decreases n - i,
        {
            mapping.push(i);
            i = i + 1;
        }
        proof {
            assert(mapping@ =~= spec_id_perm(n as nat));
        }

        let mut c: usize = 0;
        while c < cycles.len()
            invariant
                c <= cycles@.len(),
                cs == cycles@.map_values(|c2: Vec<usize>| c2@),
                forall|c2: int, i2: int|
                    0 <= c2 < cs.len() && 0 <= i2 < cs[c2].len() ==> #[trigger] cs[c2][i2] < n,
                mapping@ == apply_cycles(spec_id_perm(n as nat), cs, c as int),
                mapping@.len() == n,
            decreases cycles@.len() - c,
        {
            let cycle = &cycles[c];
            proof {
                assert(cycle@ == cs[c as int]);
                assert(forall|i2: int| 0 <= i2 < cycle@.len() ==> #[trigger] cycle@[i2] < n);
            }
            let clen = cycle.len();
            if clen >= 2 {
                let ghost prev = mapping@;
                let mut t: usize = 0;
                while t < clen
                    invariant
                        c < cycles@.len(),
                        t <= clen,
                        clen == cycle@.len(),
                        clen >= 2,
                        cs == cycles@.map_values(|c2: Vec<usize>| c2@),
                        cycle@ == cs[c as int],
                        forall|i2: int| 0 <= i2 < cycle@.len() ==> #[trigger] cycle@[i2] < n,
                        mapping@ == apply_cycle_step(prev, cycle@, t as int),
                        mapping@.len() == n,
                        prev.len() == n,
                    decreases clen - t,
                {
                    let from = cycle[t];
                    let to = cycle[(t + 1) % clen];
                    mapping.set(from, to);
                    t = t + 1;
                }
            }
            c = c + 1;
        }

        if utils::is_mapping_valid(&mapping) {
            Ok(Permutation { mapping })
        } else {
            Err(AbsaglError::Permutation(PermutationError::NonDisjointCycles))
        }
    }

    /// Enumerates all permutations of n points by Heap's algorithm; only
    /// sizes up to 9 are accepted.
    pub fn generate_group_heap(n: usize) -> (r: Result<Vec<Self>, AbsaglError>)
        ensures
            r is Ok <==> n <= 9,
            r matches Ok(v) ==> ({
                &&& v@.len() == spec_factorial(n as nat)
                &&& forall|i: int|
                    0 <= i < v@.len() ==> is_valid_mapping((#[trigger] v@[i]).mapping@)
                        && v@[i].mapping@.len() == n
            }),
            r matches Ok(v) ==> (n >= 1
                ==> crate::groups::models(v@) == heap_enum(n as nat, spec_id_perm(n as nat)).0),
            r matches Ok(v) ==> (n == 0
                ==> crate::groups::models(v@) =~= seq![spec_id_perm(0)]),
            r matches Err(e) ==> e matches AbsaglError::Permutation(
                PermutationError::OrderIsTooLarge),
    {
        if n > 9 {
            return Err(AbsaglError::Permutation(PermutationError::OrderIsTooLarge));
        }
        let mut output: Vec<Permutation> = Vec::new();
        if n == 0 {
            // The empty permutation is the single arrangement of no points.
            output.push(Permutation::identity(0));
            proof {
                assert(crate::groups::models(output@) =~= seq![spec_id_perm(0)]);
            }
            return Ok(output);
        }
        let mut arr: Vec<usize> = Vec::new();
        let mut i: usize = 0;
        while i < n
            invariant
                i <= n,
                arr@.len() == i,
                forall|k: int| 0 <= k < i ==> arr@[k] == k,
            decreases n - i,
        {
            arr.push(i);
            i = i + 1;
        }
        proof {
            assert(is_valid_mapping(arr@));
            assert(arr@ =~= spec_id_perm(n as nat));
        }
        heap_recursive(n, &mut arr, &mut output);
        proof {
            assert(crate::groups::models(output@)
                =~= Seq::<Seq<usize>>::empty() + heap_enum(n as nat, spec_id_perm(n as nat)).0);
            assert(crate::groups::models(output@)
                =~= heap_enum(n as nat, spec_id_perm(n as nat)).0);
        }
        Ok(output)
    }

    /// Generates all elements of the symmetric group on n points by closing
    /// over an adjacent transposition and the full n-cycle.
    #[verifier::rlimit(100)]
    #[verifier::spinoff_prover]
    pub fn generate_group(n: usize) -> (r: Result<Vec<Self>, AbsaglError>)
        ensures
            r is Ok,
            r matches Ok(v) ==> perm_list_ok(crate::groups::models(v@), n as nat),
            r matches Ok(v) ==> (n >= 1
                ==> crate::groups::models(v@).contains(spec_id_perm(n as nat))),
            n == 0 ==> (r matches Ok(v) && v@.len() == 0),
            r matches Ok(v) ==> (n == 1 ==> crate::groups::models(v@) =~= seq![spec_id_perm(1)]),
            r matches Ok(v) ==> (n >= 2 ==> ({
                &&& forall|m: Seq<usize>| crate::groups::models(v@).contains(m)
                    <==> crate::groups::in_generated::<Permutation>(
                        symmetric_base(n as nat), m)
                &&& crate::groups::seq_closed::<Permutation>(crate::groups::models(v@))
            })),
    {
        let mut seen: Vec<Permutation> = Vec::new();
        if n == 0 {
            return Ok(seen);
        }
        let id = Permutation::identity(n);
        if n == 1 {
            seen.push(id);
            proof {
                assert(crate::groups::models(seen@)[0] == spec_id_perm(1));
                assert(crate::groups::models(seen@) =~= seq![spec_id_perm(1)]);
            }
            return Ok(seen);
        }

        // The transposition (0 1).
        let mut tm: Vec<usize> = Vec::new();
        tm.push(1);
        tm.push(0);
        let mut i: usize = 2;
        while i < n
            invariant
                2 <= i <= n,
                tm@.len() == i,
                tm@[0] == 1 && tm@[1] == 0,
                forall|k: int| 2 <= k < i ==> tm@[k] == k,
            decreases n - i,
        {
            tm.push(i);
            i = i + 1;
        }
        let transposition = Permutation { mapping: tm };
        // The long cycle (0 1 ... n-1).
        let mut cm: Vec<usize> = Vec::new();
        let mut j: usize = 0;
        while j < n
            invariant
                j <= n,
                n >= 2,
                cm@.len() == j,
                forall|k: int| 0 <= k < j && k < n - 1 ==> cm@[k] == k + 1,
                j == n ==> cm@[n - 1] == 0,
            decreases n - j,
        {
            if j < n - 1 {
                cm.push(j + 1);
            } else {
                cm.push(0);
            }
            j = j + 1;
        }
        let long_cycle = Permutation { mapping: cm };
        proof {
            assert forall|a: int, b: int| 0 <= a < b < n implies
                transposition.mapping@[a] != transposition.mapping@[b] by {
            }
            assert(is_valid_mapping(transposition.mapping@));
            assert forall|a: int, b: int| 0 <= a < b < n implies
                long_cycle.mapping@[a] != long_cycle.mapping@[b] by {
            }
            assert(is_valid_mapping(long_cycle.mapping@));
            assert(transposition.mapping@ =~= spec_transposition(n as nat));
            assert(long_cycle.mapping@ =~= spec_long_cycle(n as nat));
        }

        let ghost base = symmetric_base(n as nat);
        let ghost start = Set::<Seq<usize>>::empty().insert(spec_id_perm(n as nat));
        let ghost gens = bfs_gens(transposition.mapping@, long_cycle.mapping@);
        seen.push(id.clone_el());
        let mut queue: Vec<Permutation> = Vec::new();
        queue.push(id);
        proof {
            assert(crate::groups::models(seen@)[0] == spec_id_perm(n as nat));
            assert(crate::groups::models(queue@)[0] == spec_id_perm(n as nat));
            lemma_rm_base(gens, start, spec_id_perm(n as nat));
        }
        bfs_close(&mut seen, &mut queue, &transposition, &long_cycle, n, Ghost(start));
        proof {
            let ms = crate::groups::models(seen@);
            // The fixpoint absorbs products with any reachable member, and
            // composing with the identity changes nothing, so the result is
            // closed under arbitrary products.
            assert forall|a: int, b: int|
                0 <= a < ms.len() && 0 <= b < ms.len() implies
                ms.contains(#[trigger] spec_compose(ms[a], ms[b])) by {
                assert(rm_reach(gens, start, ms[b]));
                let k = choose|k: nat| rm_iter(gens, start, k).contains(ms[b]);
                assert forall|m: Seq<usize>, m2: Seq<usize>|
                    ms.contains(m) && start.contains(m2) implies
                    ms.contains(#[trigger] spec_compose(m, m2)) by {
                    let mi = choose|mi: int| 0 <= mi < ms.len() && ms[mi] == m;
                    lemma_compose_id(m);
                    assert(spec_compose(m, spec_id_perm(m.len() as nat)) =~= m);
                    assert(m2 =~= spec_id_perm(n as nat));
                }
                assert forall|m: Seq<usize>, t: int|
                    ms.contains(m) && 0 <= t < gens.len() implies
                    ms.contains(#[trigger] spec_compose(m, gens[t])) by {
                    let mi = choose|mi: int| 0 <= mi < ms.len() && ms[mi] == m;
                    if t == 0 {
                        assert(ms.contains(spec_compose(ms[mi], transposition.mapping@)));
                    } else {
                        assert(ms.contains(spec_compose(ms[mi], long_cycle.mapping@)));
                    }
                }
                assert(ms.contains(ms[a]));
                lemma_rm_fixpoint_closed(gens, start, n as nat, ms, ms[a], ms[b], k);
            }
            assert(crate::groups::seq_closed::<Permutation>(ms));
            // The members are exactly the closure of the generating set.
            assert forall|m: Seq<usize>| ms.contains(m) implies
                crate::groups::in_generated::<Permutation>(base, m) by {
                let mi = choose|mi: int| 0 <= mi < ms.len() && ms[mi] == m;
                assert(rm_reach(gens, start, m));
                let k = choose|k: nat| rm_iter(gens, start, k).contains(m);
                assert forall|m2: Seq<usize>| start.contains(m2) implies
                    crate::groups::in_generated::<Permutation>(base, m2) by {
                    assert(base.contains(spec_id_perm(n as nat)));
                    crate::groups::lemma_generated_base::<Permutation>(base,
                        spec_id_perm(n as nat));
                }
                assert forall|t: int| 0 <= t < gens.len() implies
                    crate::groups::in_generated::<Permutation>(base, #[trigger] gens[t]) by {
                    assert(base.contains(gens[t]));
                    crate::groups::lemma_generated_base::<Permutation>(base, gens[t]);
                }
                lemma_rm_in_generated(gens, start, base, m, k);
            }
            assert forall|m: Seq<usize>|
                crate::groups::in_generated::<Permutation>(base, m) implies
                ms.contains(m) by {
                assert(ms.contains(spec_id_perm(n as nat)));
                assert(ms.contains(spec_compose(spec_id_perm(n as nat),
                    transposition.mapping@))) by {
                    let mi = choose|mi: int| 0 <= mi < ms.len()
                        && ms[mi] == spec_id_perm(n as nat);
                }
                assert(spec_compose(spec_id_perm(n as nat), transposition.mapping@)
                    =~= transposition.mapping@) by {
                    lemma_compose_id(transposition.mapping@);
                }
                assert(ms.contains(spec_compose(spec_id_perm(n as nat),
                    long_cycle.mapping@))) by {
                    let mi = choose|mi: int| 0 <= mi < ms.len()
                        && ms[mi] == spec_id_perm(n as nat);
                }
                assert(spec_compose(spec_id_perm(n as nat), long_cycle.mapping@)
                    =~= long_cycle.mapping@) by {
                    lemma_compose_id(long_cycle.mapping@);
                }
                assert forall|y: Seq<usize>| base.contains(y) implies ms.contains(y) by {
                }
                crate::groups::lemma_generated_minimal::<Permutation>(base, ms, m);
            }
        }
        Ok(seen)
    }

    /// Closes an arbitrary generator set under the group operation by a
    /// worklist search; all generators must share one size.
    #[verifier::rlimit(100)]
    #[verifier::spinoff_prover]
    pub fn generate_subgroup(generators: &Vec<Permutation>) -> (r: Result<Vec<Self>, AbsaglError>)
        requires
            forall|i: int| 0 <= i < generators@.len()
                ==> is_valid_mapping((#[trigger] generators@[i]).mapping@),
        ensures
            generators@.len() == 0 ==> (r matches Ok(v) && v@.len() == 0),
            r is Err <==> (exists|i: int|
                0 < i < generators@.len()
                    && (#[trigger] generators@[i]).mapping@.len()
                        != generators@[0].mapping@.len()),
            r matches Err(e) ==> e matches AbsaglError::Permutation(PermutationError::SizeNotMatch),
            r matches Ok(v) ==> (generators@.len() > 0 ==> ({
                let n = generators@[0].mapping@.len();
                let base = crate::groups::models(generators@).to_set();
                &&& perm_list_ok(crate::groups::models(v@), n)
                &&& forall|m: Seq<usize>| crate::groups::models(v@).contains(m)
                    <==> crate::groups::in_generated::<Permutation>(base, m)
                &&& crate::groups::seq_closed::<Permutation>(crate::groups::models(v@))
            })),
    {
        let mut seen: Vec<Permutation> = Vec::new();
        if generators.len() == 0 {
            return Ok(seen);
        }
        let n = generators[0].mapping.len();
        let mut gi: usize = 1;
        while gi < generators.len()
            invariant
                1 <= gi <= generators@.len(),
                n == generators@[0].mapping@.len(),
                forall|i: int| 0 < i < gi
                    ==> (#[trigger] generators@[i]).mapping@.len() == n,
            decreases generators@.len() - gi,
        {
            if generators[gi].mapping.len() != n {
                return Err(AbsaglError::Permutation(PermutationError::SizeNotMatch));
            }
            gi = gi + 1;
        }

        let ghost gens = crate::groups::models(generators@);
        let ghost base = crate::groups::models(generators@).to_set();
        let ghost start = base;
        let mut queue: Vec<Permutation> = Vec::new();
        let mut k: usize = 0;
        while k < generators.len()
            invariant
                k <= generators@.len(),
                n == generators@[0].mapping@.len(),
                gens == crate::groups::models(generators@),
                start == gens.to_set(),
                forall|i: int| 0 <= i < generators@.len()
                    ==> is_valid_mapping((#[trigger] generators@[i]).mapping@)
                        && generators@[i].mapping@.len() == n,
                perm_list_ok(crate::groups::models(seen@), n as nat),
                forall|i: int| 0 <= i < queue@.len()
                    ==> is_valid_mapping((#[trigger] queue@[i]).mapping@)
                        && queue@[i].mapping@.len() == n,
                forall|i: int| 0 <= i < crate::groups::models(queue@).len()
                    ==> crate::groups::models(seen@).contains(
                        #[trigger] crate::groups::models(queue@)[i]),
                forall|i: int| 0 <= i < crate::groups::models(seen@).len()
                    ==> rm_reach(gens, start, #[trigger] crate::groups::models(seen@)[i]),
                forall|i: int| 0 <= i < crate::groups::models(seen@).len()
                    ==> crate::groups::models(queue@).contains(
                        #[trigger] crate::groups::models(seen@)[i]),
                forall|i: int| 0 <= i < k
                    ==> crate::groups::models(seen@).contains(
                        (#[trigger] generators@[i]).mapping@),
            decreases generators@.len() - k,
        {
            let g = &generators[k];
            if !crate::groups::contains_el(&seen, g) {
                let ghost old_models = crate::groups::models(seen@);
                let ghost old_q = crate::groups::models(queue@);
                seen.push(g.clone_el());
                queue.push(g.clone_el());
                proof {
                    assert(crate::groups::models(seen@)
                        =~= old_models.push(generators@[k as int].mapping@));
                    assert(crate::groups::models(queue@)
                        =~= old_q.push(generators@[k as int].mapping@));
                    assert(crate::groups::models(seen@)[old_models.len() as int]
                        == generators@[k as int].mapping@);
                    assert(crate::groups::models(queue@)[old_q.len() as int]
                        == generators@[k as int].mapping@);
                    assert forall|m: Seq<usize>| old_models.contains(m) implies
                        crate::groups::models(seen@).contains(m) by {
                        let idx = choose|idx: int| 0 <= idx < old_models.len()
                            && old_models[idx] == m;
                        assert(crate::groups::models(seen@)[idx] == m);
                    }
                    assert forall|m: Seq<usize>| old_q.contains(m) implies
                        crate::groups::models(queue@).contains(m) by {
                        let idx = choose|idx: int| 0 <= idx < old_q.len()
                            && old_q[idx] == m;
                        assert(crate::groups::models(queue@)[idx] == m);
                    }
                    assert(gens[k as int] == generators@[k as int].mapping@);
                    assert(start.contains(generators@[k as int].mapping@)) by {
                        broadcast use vstd::seq_lib::group_seq_properties;
                    }
                    lemma_rm_base(gens, start, generators@[k as int].mapping@);
                }
            } else {
                proof {
                    assert(crate::groups::models(seen@).contains(
                        generators@[k as int].mapping@));
                }
            }
            k = k + 1;
        }

        worklist_close(&mut seen, &mut queue, generators, n, Ghost(start));
        proof {
            let ms = crate::groups::models(seen@);
            // The fixpoint is closed under arbitrary products: any second
            // operand is reachable by right-multiplications, which the
            // fixpoint absorbs one at a time.
            assert forall|a: int, b: int|
                0 <= a < ms.len() && 0 <= b < ms.len() implies
                ms.contains(#[trigger] spec_compose(ms[a], ms[b])) by {
                assert(rm_reach(gens, start, ms[b]));
                let k2 = choose|k2: nat| rm_iter(gens, start, k2).contains(ms[b]);
                assert forall|m: Seq<usize>, t: int|
                    ms.contains(m) && 0 <= t < gens.len() implies
                    ms.contains(#[trigger] spec_compose(m, gens[t])) by {
                    let mi = choose|mi: int| 0 <= mi < ms.len() && ms[mi] == m;
                    assert(gens[t] == generators@[t].mapping@);
                    assert(ms.contains(spec_compose(ms[mi], generators@[t].mapping@)));
                }
                assert forall|m: Seq<usize>, m2: Seq<usize>|
                    ms.contains(m) && start.contains(m2) implies
                    ms.contains(#[trigger] spec_compose(m, m2)) by {
                    let mi = choose|mi: int| 0 <= mi < ms.len() && ms[mi] == m;
                    broadcast use vstd::seq_lib::group_seq_properties;
                    let gt = choose|gt: int| 0 <= gt < gens.len() && gens[gt] == m2;
                    assert(gens[gt] == generators@[gt].mapping@);
                    assert(ms.contains(spec_compose(ms[mi], generators@[gt].mapping@)));
                }
                assert forall|i: int| 0 <= i < gens.len() implies
                    is_valid_mapping(#[trigger] gens[i]) && gens[i].len() == n by {
                    assert(gens[i] == generators@[i].mapping@);
                }
                assert forall|m: Seq<usize>| start.contains(m) implies
                    is_valid_mapping(m) && m.len() == n by {
                    broadcast use vstd::seq_lib::group_seq_properties;
                    let gt = choose|gt: int| 0 <= gt < gens.len() && gens[gt] == m;
                    assert(gens[gt] == generators@[gt].mapping@);
                }
                assert(ms.contains(ms[a]));
                lemma_rm_fixpoint_closed(gens, start, n as nat, ms, ms[a], ms[b], k2);
            }
            assert(crate::groups::seq_closed::<Permutation>(ms));
            // The members are exactly the generated closure.
            assert forall|m: Seq<usize>| ms.contains(m) implies
                crate::groups::in_generated::<Permutation>(base, m) by {
                let mi = choose|mi: int| 0 <= mi < ms.len() && ms[mi] == m;
                assert(rm_reach(gens, start, m));
                let k2 = choose|k2: nat| rm_iter(gens, start, k2).contains(m);
                assert forall|m2: Seq<usize>| start.contains(m2) implies
                    crate::groups::in_generated::<Permutation>(base, m2) by {
                    crate::groups::lemma_generated_base::<Permutation>(base, m2);
                }
                assert forall|t: int| 0 <= t < gens.len() implies
                    crate::groups::in_generated::<Permutation>(base, #[trigger] gens[t]) by {
                    assert(base.contains(gens[t])) by {
                        broadcast use vstd::seq_lib::group_seq_properties;
                    }
                    crate::groups::lemma_generated_base::<Permutation>(base, gens[t]);
                }
                lemma_rm_in_generated(gens, start, base, m, k2);
            }
            assert forall|m: Seq<usize>|
                crate::groups::in_generated::<Permutation>(base, m) implies
                ms.contains(m) by {
                assert forall|y: Seq<usize>| base.contains(y) implies ms.contains(y) by {
                    broadcast use vstd::seq_lib::group_seq_properties;
                    let gt = choose|gt: int| 0 <= gt < gens.len() && gens[gt] == y;
                    assert(gens[gt] == generators@[gt].mapping@);
                    assert(ms.contains(generators@[gt].mapping@));
                }
                crate::groups::lemma_generated_minimal::<Permutation>(base, ms, m);
            }
        }
        Ok(seen)
    }

    /// Generates all elements of the alternating group on n points: the even
    /// permutations of the symmetric group.
    pub fn generate_alternative_group(n: usize) -> (r: Result<Vec<Self>, AbsaglError>)
        ensures
            r is Ok,
            r matches Ok(v) ==> ({
                &&& perm_list_ok(crate::groups::models(v@), n as nat)
                &&& forall|i: int| 0 <= i < v@.len()
                    ==> spec_is_even((#[trigger] v@[i]).mapping@)
            }),
            n == 0 ==> (r matches Ok(v) && v@.len() == 0),
            r matches Ok(v) ==> (n >= 2 ==> forall|m: Seq<usize>|
                crate::groups::models(v@).contains(m)
                    <==> (crate::groups::in_generated::<Permutation>(
                        symmetric_base(n as nat), m) && spec_is_even(m))),
    {
        let all = match Permutation::generate_group(n) {
            Ok(v) => v,
            Err(_) => {
                proof {
                    assert(false);
                }
                return Ok(Vec::new());
            },
        };
        let mut out: Vec<Permutation> = Vec::new();
        let mut i: usize = 0;
        while i < all.len()
            invariant
                i <= all@.len(),
                perm_list_ok(crate::groups::models(all@), n as nat),
                perm_list_ok(crate::groups::models(out@), n as nat),
                forall|k: int| 0 <= k < out@.len()
                    ==> spec_is_even((#[trigger] out@[k]).mapping@),
                forall|k: int| 0 <= k < crate::groups::models(out@).len()
                    ==> crate::groups::models(all@).contains(
                        #[trigger] crate::groups::models(out@)[k]),
                forall|k: int| 0 <= k < i
                    && spec_is_even(#[trigger] crate::groups::models(all@)[k])
                    ==> crate::groups::models(out@).contains(
                        crate::groups::models(all@)[k]),
                all@.len() == 0 ==> out@.len() == 0,
            decreases all@.len() - i,
        {
            let p = &all[i];
            proof {
                assert(crate::groups::models(all@)[i as int] == p.mapping@);
            }
            if p.is_even() {
                if !crate::groups::contains_el(&out, p) {
                    let ghost old_models = crate::groups::models(out@);
                    out.push(p.clone_el());
                    proof {
                        assert(crate::groups::models(out@) =~= old_models.push(p.mapping@));
                        assert forall|m: Seq<usize>| old_models.contains(m) implies
                            crate::groups::models(out@).contains(m) by {
                            let idx = choose|idx: int| 0 <= idx < old_models.len()
                                && old_models[idx] == m;
                            assert(crate::groups::models(out@)[idx] == m);
                        }
                        assert(crate::groups::models(out@)[old_models.len() as int]
                            == p.mapping@);
                    }
                }
            }
            i = i + 1;
        }
        proof {
            if n >= 2 {
                assert forall|m: Seq<usize>| crate::groups::models(out@).contains(m) implies
                    (crate::groups::in_generated::<Permutation>(symmetric_base(n as nat), m)
                        && spec_is_even(m)) by {
                    let k = choose|k: int| 0 <= k < crate::groups::models(out@).len()
                        && crate::groups::models(out@)[k] == m;
                    assert(crate::groups::models(out@)[k] == out@[k].mapping@);
                    assert(crate::groups::models(all@).contains(m));
                }
                assert forall|m: Seq<usize>|
                    crate::groups::in_generated::<Permutation>(symmetric_base(n as nat), m)
                        && spec_is_even(m) implies
                    crate::groups::models(out@).contains(m) by {
                    assert(crate::groups::models(all@).contains(m));
                    let k = choose|k: int| 0 <= k < crate::groups::models(all@).len()
                        && crate::groups::models(all@)[k] == m;
                }
            }
        }
        Ok(out)
    }
}

/// The worklist closure for the symmetric-group generators: multiplies each
/// pending element by the two generators until nothing new appears; at that
/// point the members are a fixpoint under right-multiplication by either
/// generator, and every member is reachable from the start set.
fn bfs_close(
    seen: &mut Vec<Permutation>,
    queue: &mut Vec<Permutation>,
    g1: &Permutation,
    g2: &Permutation,
    n: usize,
    Ghost(start): Ghost<Set<Seq<usize>>>,
)
    requires
        is_valid_mapping(g1.mapping@),
        is_valid_mapping(g2.mapping@),
        g1.mapping@.len() == n,
        g2.mapping@.len() == n,
        perm_list_ok(crate::groups::models(old(seen)@), n as nat),
        forall|i: int| 0 <= i < old(queue)@.len()
            ==> is_valid_mapping((#[trigger] old(queue)@[i]).mapping@)
                && old(queue)@[i].mapping@.len() == n,
        forall|i: int| 0 <= i < crate::groups::models(old(queue)@).len()
            ==> crate::groups::models(old(seen)@).contains(
                #[trigger] crate::groups::models(old(queue)@)[i]),
        forall|i: int| 0 <= i < crate::groups::models(old(seen)@).len()
            ==> rm_reach(bfs_gens(g1.mapping@, g2.mapping@), start,
                #[trigger] crate::groups::models(old(seen)@)[i]),
        forall|i: int| 0 <= i < crate::groups::models(old(seen)@).len()
            ==> crate::groups::models(old(queue)@).contains(
                #[trigger] crate::groups::models(old(seen)@)[i])
                || (crate::groups::models(old(seen)@).contains(
                    spec_compose(crate::groups::models(old(seen)@)[i], g1.mapping@))
                    && crate::groups::models(old(seen)@).contains(
                        spec_compose(crate::groups::models(old(seen)@)[i], g2.mapping@))),
    ensures
        perm_list_ok(crate::groups::models(final(seen)@), n as nat),
        forall|m: Seq<usize>| crate::groups::models(old(seen)@).contains(m)
            ==> crate::groups::models(final(seen)@).contains(m),
        forall|i: int| 0 <= i < crate::groups::models(final(seen)@).len()
            ==> rm_reach(bfs_gens(g1.mapping@, g2.mapping@), start,
                #[trigger] crate::groups::models(final(seen)@)[i]),
        forall|i: int| 0 <= i < crate::groups::models(final(seen)@).len()
            ==> crate::groups::models(final(seen)@).contains(
                spec_compose(#[trigger] crate::groups::models(final(seen)@)[i], g1.mapping@))
                && crate::groups::models(final(seen)@).contains(
                    spec_compose(crate::groups::models(final(seen)@)[i], g2.mapping@)),
{
    let ghost gens = bfs_gens(g1.mapping@, g2.mapping@);
    loop
        invariant
            is_valid_mapping(g1.mapping@),
            is_valid_mapping(g2.mapping@),
            g1.mapping@.len() == n,
            g2.mapping@.len() == n,
            gens == bfs_gens(g1.mapping@, g2.mapping@),
            perm_list_ok(crate::groups::models(seen@), n as nat),
            forall|i: int| 0 <= i < queue@.len()
                ==> is_valid_mapping((#[trigger] queue@[i]).mapping@)
                    && queue@[i].mapping@.len() == n,
            forall|i: int| 0 <= i < crate::groups::models(queue@).len()
                ==> crate::groups::models(seen@).contains(
                    #[trigger] crate::groups::models(queue@)[i]),
            forall|m: Seq<usize>| crate::groups::models(old(seen)@).contains(m)
                ==> crate::groups::models(seen@).contains(m),
            forall|i: int| 0 <= i < crate::groups::models(seen@).len()
                ==> rm_reach(gens, start, #[trigger] crate::groups::models(seen@)[i]),
            forall|i: int| 0 <= i < crate::groups::models(seen@).len()
                ==> crate::groups::models(queue@).contains(
                    #[trigger] crate::groups::models(seen@)[i])
                    || (crate::groups::models(seen@).contains(
                        spec_compose(crate::groups::models(seen@)[i], g1.mapping@))
                        && crate::groups::models(seen@).contains(
                            spec_compose(crate::groups::models(seen@)[i], g2.mapping@))),
        ensures
            queue@.len() == 0,
        decreases pow_nat((n + 1) as nat, n as nat) - crate::groups::models(seen@).len(), queue@.len() + 1,
    {
        proof {
            lemma_model_count_bound(crate::groups::models(seen@), n as nat);
        }
        let ghost pre_pop = crate::groups::models(queue@);
        let cur = match queue.pop() {
            Some(p) => p,
            None => {
                break;
            },
        };
        let ghost popped = crate::groups::models(seen@);
        let ghost q_after_pop = crate::groups::models(queue@);
        proof {
            assert(pre_pop[pre_pop.len() - 1] == cur.mapping@);
            assert(crate::groups::models(seen@).contains(cur.mapping@));
            assert(q_after_pop =~= pre_pop.drop_last());
            assert forall|i: int| 0 <= i < q_after_pop.len() implies
                crate::groups::models(seen@).contains(#[trigger] q_after_pop[i]) by {
                assert(q_after_pop[i] == pre_pop[i]);
            }
        }
        expand_one(seen, queue, &cur, g1, n, Ghost(gens), Ghost(start), Ghost(0int));
        expand_one(seen, queue, &cur, g2, n, Ghost(gens), Ghost(start), Ghost(1int));
        proof {
            lemma_model_count_bound(crate::groups::models(seen@), n as nat);
            // After both expansions, the popped member's products are
            // recorded; everything else keeps a queue witness or already had
            // its products.
            let ms = crate::groups::models(seen@);
            let qs = crate::groups::models(queue@);
            assert forall|i: int| 0 <= i < ms.len() implies
                qs.contains(#[trigger] ms[i])
                    || (ms.contains(spec_compose(ms[i], g1.mapping@))
                        && ms.contains(spec_compose(ms[i], g2.mapping@))) by {
                let x = ms[i];
                if x == cur.mapping@ {
                    assert(ms.contains(spec_compose(x, g1.mapping@)));
                    assert(ms.contains(spec_compose(x, g2.mapping@)));
                } else if popped.contains(x) {
                    // The member predates the pop: its old witness carries over.
                    if pre_pop.contains(x) {
                        let idx = choose|idx: int| 0 <= idx < pre_pop.len()
                            && pre_pop[idx] == x;
                        if idx < pre_pop.len() - 1 {
                            assert(q_after_pop[idx] == x);
                            assert(q_after_pop.contains(x));
                            assert(qs.contains(x));
                        } else {
                            assert(x == cur.mapping@);
                        }
                    } else {
                        assert(popped.contains(spec_compose(x, g1.mapping@)));
                        assert(popped.contains(spec_compose(x, g2.mapping@)));
                        assert(ms.contains(spec_compose(x, g1.mapping@)));
                        assert(ms.contains(spec_compose(x, g2.mapping@)));
                    }
                } else {
                    // Newly recorded this iteration, so it is queued.
                    assert(qs.contains(x));
                }
            }
        }
    }
}

/// The two symmetric-group generators as a sequence.
pub open spec fn bfs_gens(t: Seq<usize>, c: Seq<usize>) -> Seq<Seq<usize>> {
    seq![t, c]
}

/// The worklist closure over an arbitrary generator list, with the same
/// fixpoint guarantees as the two-generator search.
fn worklist_close(
    seen: &mut Vec<Permutation>,
    queue: &mut Vec<Permutation>,
    generators: &Vec<Permutation>,
    n: usize,
    Ghost(start): Ghost<Set<Seq<usize>>>,
)
    requires
        forall|i: int| 0 <= i < generators@.len()
            ==> is_valid_mapping((#[trigger] generators@[i]).mapping@)
                && generators@[i].mapping@.len() == n,
        perm_list_ok(crate::groups::models(old(seen)@), n as nat),
        forall|i: int| 0 <= i < old(queue)@.len()
            ==> is_valid_mapping((#[trigger] old(queue)@[i]).mapping@)
                && old(queue)@[i].mapping@.len() == n,
        forall|i: int| 0 <= i < crate::groups::models(old(queue)@).len()
            ==> crate::groups::models(old(seen)@).contains(
                #[trigger] crate::groups::models(old(queue)@)[i]),
        forall|i: int| 0 <= i < crate::groups::models(old(seen)@).len()
            ==> rm_reach(crate::groups::models(generators@), start,
                #[trigger] crate::groups::models(old(seen)@)[i]),
        forall|i: int| 0 <= i < crate::groups::models(old(seen)@).len()
            ==> crate::groups::models(old(queue)@).contains(
                #[trigger] crate::groups::models(old(seen)@)[i])
                || (forall|t: int| 0 <= t < generators@.len()
                    ==> crate::groups::models(old(seen)@).contains(
                        spec_compose(crate::groups::models(old(seen)@)[i],
                            (#[trigger] generators@[t]).mapping@))),
    ensures
        perm_list_ok(crate::groups::models(final(seen)@), n as nat),
        forall|m: Seq<usize>| crate::groups::models(old(seen)@).contains(m)
            ==> crate::groups::models(final(seen)@).contains(m),
        forall|i: int| 0 <= i < crate::groups::models(final(seen)@).len()
            ==> rm_reach(crate::groups::models(generators@), start,
                #[trigger] crate::groups::models(final(seen)@)[i]),
        forall|i: int, t: int|
            0 <= i < crate::groups::models(final(seen)@).len() && 0 <= t < generators@.len()
                ==> crate::groups::models(final(seen)@).contains(
                    spec_compose(#[trigger] crate::groups::models(final(seen)@)[i],
                        (#[trigger] generators@[t]).mapping@)),
{
    let ghost gens = crate::groups::models(generators@);
    loop
        invariant
            gens == crate::groups::models(generators@),
            forall|i: int| 0 <= i < generators@.len()
                ==> is_valid_mapping((#[trigger] generators@[i]).mapping@)
                    && generators@[i].mapping@.len() == n,
            perm_list_ok(crate::groups::models(seen@), n as nat),
            forall|i: int| 0 <= i < queue@.len()
                ==> is_valid_mapping((#[trigger] queue@[i]).mapping@)
                    && queue@[i].mapping@.len() == n,
            forall|i: int| 0 <= i < crate::groups::models(queue@).len()
                ==> crate::groups::models(seen@).contains(
                    #[trigger] crate::groups::models(queue@)[i]),
            forall|m: Seq<usize>| crate::groups::models(old(seen)@).contains(m)
                ==> crate::groups::models(seen@).contains(m),
            forall|i: int| 0 <= i < crate::groups::models(seen@).len()
                ==> rm_reach(gens, start, #[trigger] crate::groups::models(seen@)[i]),
            forall|i: int| 0 <= i < crate::groups::models(seen@).len()
                ==> crate::groups::models(queue@).contains(
                    #[trigger] crate::groups::models(seen@)[i])
                    || (forall|t: int| 0 <= t < generators@.len()
                        ==> crate::groups::models(seen@).contains(
                            spec_compose(crate::groups::models(seen@)[i],
                                (#[trigger] generators@[t]).mapping@))),
        ensures
            queue@.len() == 0,
        decreases pow_nat((n + 1) as nat, n as nat) - crate::groups::models(seen@).len(), queue@.len() + 1,
    {
        proof {
            lemma_model_count_bound(crate::groups::models(seen@), n as nat);
        }
        let ghost pre_pop = crate::groups::models(queue@);
        let cur = match queue.pop() {
            Some(p) => p,
            None => {
                break;
            },
        };
        let ghost popped = crate::groups::models(seen@);
        let ghost q_after_pop = crate::groups::models(queue@);
        proof {
            assert(pre_pop[pre_pop.len() - 1] == cur.mapping@);
            assert(crate::groups::models(seen@).contains(cur.mapping@));
            assert(q_after_pop =~= pre_pop.drop_last());
            assert forall|i: int| 0 <= i < q_after_pop.len() implies
                crate::groups::models(seen@).contains(#[trigger] q_after_pop[i]) by {
                assert(q_after_pop[i] == pre_pop[i]);
            }
            // Each member other than the popped one keeps its witness.
            assert forall|i: int| 0 <= i < popped.len() implies
                q_after_pop.contains(#[trigger] popped[i])
                    || popped[i] == cur.mapping@
                    || (forall|t: int| 0 <= t < generators@.len()
                        ==> popped.contains(spec_compose(popped[i],
                            (#[trigger] generators@[t]).mapping@))) by {
                let x = popped[i];
                if pre_pop.contains(x) && x != cur.mapping@ {
                    let idx = choose|idx: int| 0 <= idx < pre_pop.len() && pre_pop[idx] == x;
                    if idx < pre_pop.len() - 1 {
                        assert(q_after_pop[idx] == x);
                    }
                }
            }
        }
        let ghost start_models_len = crate::groups::models(seen@).len();
        let ghost start_queue = queue@;
        let mut k: usize = 0;
        while k < generators.len()
            invariant
                k <= generators@.len(),
                gens == crate::groups::models(generators@),
                is_valid_mapping(cur.mapping@),
                cur.mapping@.len() == n,
                rm_reach(gens, start, cur.mapping@),
                forall|i: int| 0 <= i < generators@.len()
                    ==> is_valid_mapping((#[trigger] generators@[i]).mapping@)
                        && generators@[i].mapping@.len() == n,
                perm_list_ok(crate::groups::models(seen@), n as nat),
                forall|i: int| 0 <= i < queue@.len()
                    ==> is_valid_mapping((#[trigger] queue@[i]).mapping@)
                        && queue@[i].mapping@.len() == n,
                forall|i: int| 0 <= i < crate::groups::models(queue@).len()
                    ==> crate::groups::models(seen@).contains(
                        #[trigger] crate::groups::models(queue@)[i]),
                forall|m: Seq<usize>| crate::groups::models(old(seen)@).contains(m)
                    ==> crate::groups::models(seen@).contains(m),
                forall|i: int| 0 <= i < crate::groups::models(seen@).len()
                    ==> rm_reach(gens, start, #[trigger] crate::groups::models(seen@)[i]),
                forall|i: int| 0 <= i < crate::groups::models(seen@).len()
                    ==> crate::groups::models(queue@).contains(
                        #[trigger] crate::groups::models(seen@)[i])
                        || crate::groups::models(seen@)[i] == cur.mapping@
                        || (forall|t: int| 0 <= t < generators@.len()
                            ==> crate::groups::models(seen@).contains(
                                #[trigger] spec_compose(crate::groups::models(seen@)[i],
                                    generators@[t].mapping@))),
                forall|t: int| 0 <= t < k
                    ==> crate::groups::models(seen@).contains(
                        spec_compose(cur.mapping@, (#[trigger] generators@[t]).mapping@)),
                crate::groups::models(seen@).len() >= start_models_len,
                crate::groups::models(seen@).len() > start_models_len
                    || queue@ == start_queue,
            decreases generators@.len() - k,
        {
            proof {
                assert(gens[k as int] == generators@[k as int].mapping@);
            }
            let ghost before_seen = crate::groups::models(seen@);
            let ghost before_q = crate::groups::models(queue@);
            expand_one(seen, queue, &cur, &generators[k], n, Ghost(gens), Ghost(start),
                Ghost(k as int));
            proof {
                let ms = crate::groups::models(seen@);
                let qs = crate::groups::models(queue@);
                assert forall|i: int| 0 <= i < ms.len() implies
                    qs.contains(#[trigger] ms[i])
                        || ms[i] == cur.mapping@
                        || (forall|t: int| 0 <= t < generators@.len()
                            ==> ms.contains(#[trigger] spec_compose(ms[i],
                                generators@[t].mapping@))) by {
                    let x = ms[i];
                    if before_seen.contains(x) {
                        let bi = choose|bi: int| 0 <= bi < before_seen.len()
                            && before_seen[bi] == x;
                        if before_q.contains(x) {
                            assert(qs.contains(x));
                        } else if x != cur.mapping@ {
                            assert(forall|t: int| 0 <= t < generators@.len()
                                ==> before_seen.contains(#[trigger] spec_compose(x,
                                    generators@[t].mapping@)));
                            assert forall|t: int| 0 <= t < generators@.len() implies
                                ms.contains(#[trigger] spec_compose(x,
                                    generators@[t].mapping@)) by {
                                assert(before_seen.contains(spec_compose(x,
                                    generators@[t].mapping@)));
                            }
                        }
                    } else {
                        assert(qs.contains(x));
                    }
                }
            }
            k = k + 1;
        }
        proof {
            lemma_model_count_bound(crate::groups::models(seen@), n as nat);
            let ms = crate::groups::models(seen@);
            let qs = crate::groups::models(queue@);
            assert forall|i: int| 0 <= i < ms.len() implies
                qs.contains(#[trigger] ms[i])
                    || (forall|t: int| 0 <= t < generators@.len()
                        ==> ms.contains(spec_compose(ms[i],
                            (#[trigger] generators@[t]).mapping@))) by {
                let x = ms[i];
                if x == cur.mapping@ {
                    assert forall|t: int| 0 <= t < generators@.len() implies
                        ms.contains(spec_compose(x,
                            (#[trigger] generators@[t]).mapping@)) by {
                    }
                }
            }
        }
    }
}

/// One expansion step: if cur * g is new, record it and queue it; either
/// way the product is then a recorded member.
fn expand_one(
    seen: &mut Vec<Permutation>,
    queue: &mut Vec<Permutation>,
    cur: &Permutation,
    g: &Permutation,
    n: usize,
    Ghost(gens): Ghost<Seq<Seq<usize>>>,
    Ghost(start): Ghost<Set<Seq<usize>>>,
    Ghost(gidx): Ghost<int>,
)
    requires
        is_valid_mapping(cur.mapping@),
        is_valid_mapping(g.mapping@),
        cur.mapping@.len() == n,
        g.mapping@.len() == n,
        0 <= gidx < gens.len(),
        gens[gidx] == g.mapping@,
        rm_reach(gens, start, cur.mapping@),
        perm_list_ok(crate::groups::models(old(seen)@), n as nat),
        forall|i: int| 0 <= i < old(queue)@.len()
            ==> is_valid_mapping((#[trigger] old(queue)@[i]).mapping@)
                && old(queue)@[i].mapping@.len() == n,
        forall|i: int| 0 <= i < crate::groups::models(old(queue)@).len()
            ==> crate::groups::models(old(seen)@).contains(
                #[trigger] crate::groups::models(old(queue)@)[i]),
        forall|i: int| 0 <= i < crate::groups::models(old(seen)@).len()
            ==> rm_reach(gens, start, #[trigger] crate::groups::models(old(seen)@)[i]),
    ensures
        perm_list_ok(crate::groups::models(final(seen)@), n as nat),
        forall|i: int| 0 <= i < final(queue)@.len()
            ==> is_valid_mapping((#[trigger] final(queue)@[i]).mapping@)
                && final(queue)@[i].mapping@.len() == n,
        forall|i: int| 0 <= i < crate::groups::models(final(queue)@).len()
            ==> crate::groups::models(final(seen)@).contains(
                #[trigger] crate::groups::models(final(queue)@)[i]),
        forall|i: int| 0 <= i < crate::groups::models(final(seen)@).len()
            ==> rm_reach(gens, start, #[trigger] crate::groups::models(final(seen)@)[i]),
        final(seen)@.len() >= old(seen)@.len(),
        final(seen)@.len() > old(seen)@.len() || final(queue)@ == old(queue)@,
        forall|m: Seq<usize>| crate::groups::models(old(seen)@).contains(m)
            ==> crate::groups::models(final(seen)@).contains(m),
        forall|m: Seq<usize>| crate::groups::models(old(queue)@).contains(m)
            ==> crate::groups::models(final(queue)@).contains(m),
        forall|m: Seq<usize>|
            crate::groups::models(final(seen)@).contains(m)
                && !crate::groups::models(old(seen)@).contains(m)
                ==> crate::groups::models(final(queue)@).contains(m),
        crate::groups::models(final(seen)@).contains(
            spec_compose(cur.mapping@, g.mapping@)),
{
    let ne = cur.op(g);
    proof {
        lemma_compose_wf(cur.mapping@, g.mapping@);
        lemma_rm_step(gens, start, cur.mapping@, gidx);
    }
    if !crate::groups::contains_el(seen, &ne) {
        let ghost old_models = crate::groups::models(seen@);
        let ghost old_q = crate::groups::models(queue@);
        seen.push(ne.clone_el());
        queue.push(ne);
        proof {
            assert(crate::groups::models(seen@)
                =~= old_models.push(spec_compose(cur.mapping@, g.mapping@)));
            assert(crate::groups::models(queue@)
                =~= old_q.push(spec_compose(cur.mapping@, g.mapping@)));
            assert forall|m: Seq<usize>| old_models.contains(m) implies
                crate::groups::models(seen@).contains(m) by {
                let idx = choose|idx: int| 0 <= idx < old_models.len() && old_models[idx] == m;
                assert(crate::groups::models(seen@)[idx] == m);
            }
            assert forall|m: Seq<usize>| old_q.contains(m) implies
                crate::groups::models(queue@).contains(m) by {
                let idx = choose|idx: int| 0 <= idx < old_q.len() && old_q[idx] == m;
                assert(crate::groups::models(queue@)[idx] == m);
            }
            assert(crate::groups::models(seen@)[old_models.len() as int]
                == spec_compose(cur.mapping@, g.mapping@));
            assert(crate::groups::models(queue@)[old_q.len() as int]
                == spec_compose(cur.mapping@, g.mapping@));
            assert forall|m: Seq<usize>|
                crate::groups::models(seen@).contains(m) && !old_models.contains(m) implies
                crate::groups::models(queue@).contains(m) by {
                let idx = choose|idx: int| 0 <= idx < crate::groups::models(seen@).len()
                    && crate::groups::models(seen@)[idx] == m;
                if idx < old_models.len() {
                    assert(old_models[idx] == m);
                }
            }
        }
    }
}

impl CheckedOp for Permutation {
    type Error = PermutationError;

    open spec fn spec_wrap(e: PermutationError) -> AbsaglError {
        AbsaglError::Permutation(e)
    }

    /// A fallible version of the group operation.
    fn checked_op(&self, other: &Self) -> (r: Result<Self, PermutationError>) {
        if self.mapping.len() != other.mapping.len() {
            Err(PermutationError::SizeNotMatch)
        } else {
            Ok(self.op(other))
        }
    }

    proof fn lemma_wrap_not_hom(e: PermutationError) {
    }

    fn wrap_err(e: PermutationError) -> (r: AbsaglError) {
        AbsaglError::Permutation(e)
    }
}

impl CanonicalRepr for Permutation {
    /// Each image as eight big-endian bytes, concatenated.
    open spec fn m_canon(m: Seq<usize>) -> Seq<u8> {
        Seq::new(m.len() * 8, |i: int| spec_u64_be(m[i / 8] as u64)[i % 8])
    }

    fn to_canonical_bytes(&self) -> (r: Vec<u8>) {
        let n = self.mapping.len();
        let mut out: Vec<u8> = Vec::new();
        let mut i: usize = 0;
        while i < n
            invariant
                i <= n,
                n == self.mapping@.len(),
                out@.len() == i * 8,
                forall|k: int| 0 <= k < i
                    ==> out@.subrange(k * 8, k * 8 + 8) =~= spec_u64_be(self.mapping@[k] as u64),
            decreases n - i,
        {
            push_u64_be(&mut out, self.mapping[i] as u64);
            proof {
                assert forall|k: int| 0 <= k < i + 1 implies
                    out@.subrange(k * 8, k * 8 + 8) =~= spec_u64_be(self.mapping@[k] as u64) by {
                }
            }
            i = i + 1;
        }
        proof {
            assert forall|k: int| 0 <= k < out@.len() implies
                out@[k] == Self::m_canon(self.mapping@)[k] by {
                let q = k / 8;
                vstd::arithmetic::div_mod::lemma_fundamental_div_mod(k, 8);
                vstd::arithmetic::div_mod::lemma_mod_bound(k, 8);
                assert(0 <= q < n) by (nonlinear_arith)
                    requires k == 8 * q + k % 8, 0 <= k % 8 < 8, 0 <= k < n * 8;
                assert(out@.subrange(q * 8, q * 8 + 8) =~= spec_u64_be(self.mapping@[q] as u64));
                assert(out@[q * 8 + k % 8] == spec_u64_be(self.mapping@[q] as u64)[k % 8]);
                assert(k == q * 8 + k % 8);
            }
            assert(out@ =~= Self::m_canon(self.mapping@));
        }
        out
    }
}

} // verus!

verus! {

/// An element of the alternating group: a permutation checked to be even at
/// construction.
#[derive(Clone, PartialEq, Debug, Eq, Hash)]
pub struct AlternatingGroupElement {
    pub permutation: Permutation,
}

impl GroupElement for AlternatingGroupElement {
    /// The mathematical value is the underlying image sequence.
    type Model = Seq<usize>;

    open spec fn model(self) -> Seq<usize> {
        self.permutation.mapping@
    }

    open spec fn m_wf(m: Seq<usize>) -> bool {
        is_valid_mapping(m) && m.len() <= usize::MAX
    }

    open spec fn m_compat(a: Seq<usize>, b: Seq<usize>) -> bool {
        a.len() == b.len()
    }

    open spec fn m_op(a: Seq<usize>, b: Seq<usize>) -> Seq<usize> {
        spec_compose(a, b)
    }

    open spec fn m_inv(a: Seq<usize>) -> Seq<usize> {
        spec_invert(a)
    }

    proof fn lemma_compat_refl(a: Seq<usize>) {
    }

    proof fn lemma_compat_sym(a: Seq<usize>, b: Seq<usize>) {
    }

    proof fn lemma_compat_trans(a: Seq<usize>, b: Seq<usize>, c: Seq<usize>) {
    }

    proof fn lemma_op_wf(a: Seq<usize>, b: Seq<usize>) {
        lemma_compose_wf(a, b);
    }

    proof fn lemma_inv_wf(a: Seq<usize>) {
        lemma_invert_wf(a);
    }

    /// Composes two alternating elements; by parity, the result of two even
    /// permutations is again even.
    fn op(&self, other: &Self) -> (r: Self) {
        AlternatingGroupElement { permutation: self.permutation.op(&other.permutation) }
    }

    fn inverse(&self) -> (r: Self) {
        AlternatingGroupElement { permutation: self.permutation.inverse() }
    }

    fn eq_el(&self, other: &Self) -> (r: bool) {
        self.permutation.eq_el(&other.permutation)
    }

    fn compatible(&self, other: &Self) -> (r: bool) {
        self.permutation.compatible(&other.permutation)
    }

    fn clone_el(&self) -> (r: Self) {
        AlternatingGroupElement { permutation: self.permutation.clone_el() }
    }
}

impl CheckedOp for AlternatingGroupElement {
    type Error = PermutationError;

    open spec fn spec_wrap(e: PermutationError) -> AbsaglError {
        AbsaglError::Permutation(e)
    }

    /// A fallible version of the group operation.
    fn checked_op(&self, other: &Self) -> (r: Result<Self, PermutationError>) {
        if self.permutation.mapping.len() != other.permutation.mapping.len() {
            Err(PermutationError::SizeNotMatch)
        } else {
            Ok(self.op(other))
        }
    }

    proof fn lemma_wrap_not_hom(e: PermutationError) {
    }

    fn wrap_err(e: PermutationError) -> (r: AbsaglError) {
        AbsaglError::Permutation(e)
    }
}

impl CanonicalRepr for AlternatingGroupElement {
    /// The canonical bytes of the underlying permutation.
    open spec fn m_canon(m: Seq<usize>) -> Seq<u8> {
        Seq::new(m.len() * 8, |i: int| spec_u64_be(m[i / 8] as u64)[i % 8])
    }

    fn to_canonical_bytes(&self) -> (r: Vec<u8>) {
        self.permutation.to_canonical_bytes()
    }
}

impl AlternatingGroupElement {
    /// Wraps an even permutation; rejects an odd one.
    pub fn new(p: Permutation) -> (r: Result<Self, AbsaglError>)
        requires
            is_valid_mapping(p.mapping@),
        ensures
            r is Ok <==> spec_is_even(p.mapping@),
            r matches Ok(a) ==> a.permutation.mapping@ == p.mapping@,
            r matches Err(e)
                ==> e matches AbsaglError::Permutation(PermutationError::NotEvenPermutation),
    {
        if p.is_even() {
            Ok(AlternatingGroupElement { permutation: p })
        } else {
            Err(AbsaglError::Permutation(PermutationError::NotEvenPermutation))
        }
    }

    /// The identity element on `size` points.
    pub fn identity(size: usize) -> (r: Self)
        ensures
            r.permutation.mapping@ == spec_id_perm(size as nat),
    {
        AlternatingGroupElement { permutation: Permutation::identity(size) }
    }

    /// The mapping of the underlying permutation.
    pub fn mapping(&self) -> (r: &Vec<usize>)
        ensures
            r@ == self.permutation.mapping@,
    {
        &self.permutation.mapping
    }

    /// The order of the underlying permutation.
    pub fn order(&self) -> (r: usize)
        requires
            is_valid_mapping(self.permutation.mapping@),
            spec_perm_order(self.permutation.mapping@) <= usize::MAX,
        ensures
            r == spec_perm_order(self.permutation.mapping@),
    {
        self.permutation.order()
    }

    /// Decides the parity of the underlying permutation.
    pub fn is_even(&self) -> (r: bool)
        requires
            is_valid_mapping(self.permutation.mapping@),
        ensures
            r == spec_is_even(self.permutation.mapping@),
    {
        self.permutation.is_even()
    }

    /// Generates all elements of the alternating group on n points.
    pub fn generate_group(n: usize) -> (r: Result<Vec<Self>, AbsaglError>)
        ensures
            r is Ok,
            r matches Ok(v) ==> ({
                &&& perm_list_ok(crate::groups::models(v@), n as nat)
                &&& forall|i: int| 0 <= i < v@.len()
                    ==> spec_is_even((#[trigger] v@[i]).permutation.mapping@)
            }),
            n == 0 ==> (r matches Ok(v) && v@.len() == 0),
            r matches Ok(v) ==> (n >= 2 ==> forall|m: Seq<usize>|
                crate::groups::models(v@).contains(m)
                    <==> (crate::groups::in_generated::<Permutation>(
                        symmetric_base(n as nat), m) && spec_is_even(m))),
    {
        let evens = match Permutation::generate_alternative_group(n) {
            Ok(v) => v,
            Err(_) => {
                proof {
                    assert(false);
                }
                return Ok(Vec::new());
            },
        };
        let mut out: Vec<AlternatingGroupElement> = Vec::new();
        let mut i: usize = 0;
        while i < evens.len()
            invariant
                i <= evens@.len(),
                perm_list_ok(crate::groups::models(evens@), n as nat),
                forall|k: int| 0 <= k < evens@.len()
                    ==> spec_is_even((#[trigger] evens@[k]).mapping@),
                out@.len() == i,
                forall|k: int| 0 <= k < i
                    ==> (#[trigger] out@[k]).permutation.mapping@ == evens@[k].mapping@,
            decreases evens@.len() - i,
        {
            proof {
                assert(crate::groups::models(evens@)[i as int] == evens@[i as int].mapping@);
            }
            out.push(AlternatingGroupElement { permutation: evens[i].clone_el() });
            i = i + 1;
        }
        proof {
            assert(crate::groups::models(out@) =~= crate::groups::models(evens@));
            assert forall|k: int| 0 <= k < out@.len() implies
                spec_is_even((#[trigger] out@[k]).permutation.mapping@) by {
                assert(out@[k].permutation.mapping@ == evens@[k].mapping@);
            }
            assert(out@.len() == evens@.len());
        }
        Ok(out)
    }
}

/// A sparse permutation: only the moved indices are stored, as key-image
/// pairs with pairwise distinct keys.
#[derive(Clone, PartialEq, Debug, Eq, Hash)]
pub struct SparsePerm {
    pub mapping: Vec<(usize, usize)>,
}

/// The partial map a pair list denotes; later pairs win, as later inserts
/// overwrite earlier ones.
pub open spec fn pairs_to_map(s: Seq<(usize, usize)>) -> Map<usize, usize>
    decreases s.len(),
{
    if s.len() == 0 {
        Map::empty()
    } else {
        pairs_to_map(s.drop_last()).insert(s.last().0, s.last().1)
    }
}

/// Keys are pairwise distinct: the pair list denotes its map with no
/// shadowed entries, as a key-value store keeps them.
pub open spec fn sparse_keys_distinct(s: Seq<(usize, usize)>) -> bool {
    forall|a: int, b: int| 0 <= a < b < s.len() ==> (#[trigger] s[a]).0 != (#[trigger] s[b]).0
}

/// Keys and images are each pairwise distinct: a genuine partial bijection.
pub open spec fn sparse_wf(s: Seq<(usize, usize)>) -> bool {
    &&& forall|a: int, b: int| 0 <= a < b < s.len()
        ==> (#[trigger] s[a]).0 != (#[trigger] s[b]).0
    &&& forall|a: int, b: int| 0 <= a < b < s.len()
        ==> (#[trigger] s[a]).1 != (#[trigger] s[b]).1
}

impl SparsePerm {
    /// The map this sparse permutation denotes.
    pub open spec fn view_map(self) -> Map<usize, usize> {
        pairs_to_map(self.mapping@)
    }

    /// The identity: no index moves.
    pub fn identity() -> (r: Self)
        ensures
            r.view_map() == Map::<usize, usize>::empty(),
    {
        SparsePerm { mapping: Vec::new() }
    }

    /// Looks an index up, returning its image or the index itself.
    pub fn lookup(&self, key: usize) -> (r: usize)
        ensures
            self.view_map().dom().contains(key) ==> r == self.view_map()[key],
            !self.view_map().dom().contains(key) ==> r == key,
    {
        let n = self.mapping.len();
        let mut i: usize = n;
        proof {
            assert(self.mapping@.take(n as int) =~= self.mapping@);
        }
        while i > 0
            invariant
                i <= n,
                n == self.mapping@.len(),
                pairs_to_map(self.mapping@.take(i as int)).dom().contains(key)
                    == self.view_map().dom().contains(key),
                self.view_map().dom().contains(key)
                    ==> pairs_to_map(self.mapping@.take(i as int))[key] == self.view_map()[key],
            decreases i,
        {
            proof {
                assert(self.mapping@.take(i as int).drop_last()
                    =~= self.mapping@.take(i as int - 1));
                assert(self.mapping@.take(i as int).last() == self.mapping@[i as int - 1]);
            }
            let (k, v) = self.mapping[i - 1];
            if k == key {
                return v;
            }
            i = i - 1;
        }
        proof {
            assert(self.mapping@.take(0) =~= Seq::<(usize, usize)>::empty());
        }
        key
    }

    /// Whether any pair carries this key.
    pub fn has_key(&self, key: usize) -> (r: bool)
        ensures
            r == self.view_map().dom().contains(key),
    {
        let n = self.mapping.len();
        let mut i: usize = n;
        proof {
            assert(self.mapping@.take(n as int) =~= self.mapping@);
        }
        while i > 0
            invariant
                i <= n,
                n == self.mapping@.len(),
                pairs_to_map(self.mapping@.take(i as int)).dom().contains(key)
                    == self.view_map().dom().contains(key),
            decreases i,
        {
            proof {
                assert(self.mapping@.take(i as int).drop_last()
                    =~= self.mapping@.take(i as int - 1));
                assert(self.mapping@.take(i as int).last() == self.mapping@[i as int - 1]);
            }
            let (k, _v) = self.mapping[i - 1];
            if k == key {
                return true;
            }
            i = i - 1;
        }
        proof {
            assert(self.mapping@.take(0) =~= Seq::<(usize, usize)>::empty());
        }
        false
    }

    /// Composes two sparse permutations: other is applied first, then self,
    /// with fixed points outside either support. The result records each
    /// moved index once: first the images of other's keys, then self's own
    /// keys outside other's support.
    pub fn op(&self, other: &Self) -> (r: Self)
        requires
            sparse_keys_distinct(self.mapping@),
            sparse_keys_distinct(other.mapping@),
        ensures
            sparse_keys_distinct(r.mapping@),
            r.view_map().dom() == self.view_map().dom().union(other.view_map().dom()),
            forall|k: usize| other.view_map().dom().contains(k)
                ==> #[trigger] r.view_map()[k] == ({
                    let v = other.view_map()[k];
                    if self.view_map().dom().contains(v) { self.view_map()[v] } else { v }
                }),
            forall|k: usize| self.view_map().dom().contains(k)
                && !other.view_map().dom().contains(k)
                ==> #[trigger] r.view_map()[k] == self.view_map()[k],
    {
        let mut out: Vec<(usize, usize)> = Vec::new();
        let n2 = other.mapping.len();
        let mut j: usize = 0;
        while j < n2
            invariant
                j <= n2,
                n2 == other.mapping@.len(),
                out@.len() == j,
                forall|t: int| 0 <= t < j
                    ==> (#[trigger] out@[t]).0 == other.mapping@[t].0,
                pairs_to_map(out@) == spec_mapped_pairs(
                    self.view_map(),
                    other.mapping@.take(j as int),
                ),
            decreases n2 - j,
        {
            let (k, v) = other.mapping[j];
            let image = if self.has_key(v) {
                self.lookup(v)
            } else {
                v
            };
            proof {
                assert(other.mapping@.take(j as int + 1).drop_last()
                    =~= other.mapping@.take(j as int));
                assert(other.mapping@.take(j as int + 1).last() == other.mapping@[j as int]);
                assert(out@.push((k, image)).drop_last() =~= out@);
            }
            out.push((k, image));
            j = j + 1;
        }
        let ghost phase_a = pairs_to_map(out@);
        let ghost a_len = out@.len();
        proof {
            assert(other.mapping@.take(n2 as int) =~= other.mapping@);
            assert(phase_a == spec_mapped_pairs(self.view_map(), other.mapping@));
            lemma_mapped_pairs(self.view_map(), other.mapping@);
        }
        let n1 = self.mapping.len();
        let mut i: usize = 0;
        while i < n1
            invariant
                i <= n1,
                n1 == self.mapping@.len(),
                a_len == n2,
                n2 == other.mapping@.len(),
                sparse_keys_distinct(self.mapping@),
                sparse_keys_distinct(other.mapping@),
                out@.len() >= a_len,
                forall|t: int| 0 <= t < a_len
                    ==> (#[trigger] out@[t]).0 == other.mapping@[t].0,
                forall|t: int| a_len <= t < out@.len()
                    ==> !other.view_map().dom().contains((#[trigger] out@[t]).0)
                        && exists|s2: int| 0 <= s2 < i && out@[t] == self.mapping@[s2],
                sparse_keys_distinct(out@),
                phase_a.dom() =~= other.view_map().dom(),
                pairs_to_map(out@) == spec_residual(
                    phase_a,
                    other.view_map(),
                    self.mapping@.take(i as int),
                ),
            decreases n1 - i,
        {
            let (k, v) = self.mapping[i];
            proof {
                assert(self.mapping@.take(i as int + 1).drop_last()
                    =~= self.mapping@.take(i as int));
                assert(self.mapping@.take(i as int + 1).last() == self.mapping@[i as int]);
            }
            if !other.has_key(k) {
                proof {
                    assert(out@.push((k, v)).drop_last() =~= out@);
                    // The new key differs from every recorded one: phase-one
                    // keys sit in other's support, phase-two keys come from
                    // distinct earlier positions of self.
                    assert forall|t: int| 0 <= t < out@.len() implies
                        (#[trigger] out@[t]).0 != k by {
                        if t < a_len {
                            lemma_pairs_dom(other.mapping@, out@[t].0);
                            assert(other.view_map().dom().contains(out@[t].0));
                        } else {
                            let s2 = choose|s2: int| 0 <= s2 < i
                                && out@[t] == self.mapping@[s2];
                            assert(self.mapping@[s2].0 != self.mapping@[i as int].0);
                        }
                    }
                }
                out.push((k, v));
            }
            i = i + 1;
        }
        proof {
            assert(self.mapping@.take(n1 as int) =~= self.mapping@);
            lemma_residual(phase_a, other.view_map(), self.mapping@);
            let rm = spec_residual(phase_a, other.view_map(), self.mapping@);
            assert(rm.dom() =~= self.view_map().dom().union(other.view_map().dom()));
            assert forall|k: usize| other.view_map().dom().contains(k) implies
                #[trigger] rm[k] == ({
                    let v = other.view_map()[k];
                    if self.view_map().dom().contains(v) { self.view_map()[v] } else { v }
                }) by {
                assert(phase_a.dom().contains(k));
                assert(rm[k] == phase_a[k]);
            }
        }
        SparsePerm { mapping: out }
    }

    /// Inverts the sparse permutation by swapping keys and images; the
    /// caller keeps keys and images pairwise distinct.
    pub fn inverse(&self) -> (r: Self)
        requires
            sparse_wf(self.mapping@),
        ensures
            sparse_wf(r.mapping@),
            r.mapping@.len() == self.mapping@.len(),
            forall|t: int| 0 <= t < self.mapping@.len()
                ==> r.mapping@[t] == ((#[trigger] self.mapping@[t]).1, self.mapping@[t].0),
            forall|k: usize| self.view_map().dom().contains(k)
                ==> r.view_map().dom().contains(#[trigger] self.view_map()[k])
                    && r.view_map()[self.view_map()[k]] == k,
    {
        let mut inv: Vec<(usize, usize)> = Vec::new();
        let n = self.mapping.len();
        let mut i: usize = 0;
        while i < n
            invariant
                i <= n,
                n == self.mapping@.len(),
                inv@.len() == i,
                forall|t: int| 0 <= t < i
                    ==> #[trigger] inv@[t] == (self.mapping@[t].1, self.mapping@[t].0),
            decreases n - i,
        {
            let (k, v) = self.mapping[i];
            inv.push((v, k));
            i = i + 1;
        }
        proof {
            assert forall|k: usize| self.view_map().dom().contains(k)
                implies pairs_to_map(inv@).dom().contains(#[trigger] self.view_map()[k])
                    && pairs_to_map(inv@)[self.view_map()[k]] == k by {
                lemma_pairs_dom(self.mapping@, k);
                let t = choose|t: int| 0 <= t < self.mapping@.len()
                    && (#[trigger] self.mapping@[t]).0 == k;
                lemma_pairs_distinct_lookup(self.mapping@, t);
                assert(self.view_map()[k] == self.mapping@[t].1);
                assert(inv@[t] == (self.mapping@[t].1, k));
                lemma_pairs_distinct_lookup(inv@, t);
            }
        }
        SparsePerm { mapping: inv }
    }

    /// A fallible composition: errs exactly when some moved index of self is
    /// not a moved index of other; otherwise composes as `op` does.
    pub fn checked_op(&self, other: &Self) -> (r: Result<Self, PermutationError>)
        requires
            sparse_keys_distinct(self.mapping@),
            sparse_keys_distinct(other.mapping@),
        ensures
            r is Err <==> exists|k: usize| #[trigger] self.view_map().dom().contains(k)
                && !other.view_map().dom().contains(k),
            r matches Err(e) ==> e matches PermutationError::SizeNotMatch,
            r matches Ok(v) ==> ({
                &&& sparse_keys_distinct(v.mapping@)
                &&& v.view_map().dom() == self.view_map().dom().union(other.view_map().dom())
                &&& forall|k: usize| other.view_map().dom().contains(k)
                    ==> #[trigger] v.view_map()[k] == ({
                        let w = other.view_map()[k];
                        if self.view_map().dom().contains(w) { self.view_map()[w] } else { w }
                    })
                &&& forall|k: usize| self.view_map().dom().contains(k)
                    && !other.view_map().dom().contains(k)
                    ==> #[trigger] v.view_map()[k] == self.view_map()[k]
            }),
    {
        let n = self.mapping.len();
        let mut i: usize = 0;
        while i < n
            invariant
                i <= n,
                n == self.mapping@.len(),
                forall|t: int| 0 <= t < i
                    ==> other.view_map().dom().contains((#[trigger] self.mapping@[t]).0),
            decreases n - i,
        {
            let (k, _v) = self.mapping[i];
            if !other.has_key(k) {
                proof {
                    lemma_pairs_dom(self.mapping@, k);
                    assert(self.view_map().dom().contains(k));
                }
                return Err(PermutationError::SizeNotMatch);
            }
            i = i + 1;
        }
        proof {
            assert forall|k: usize| #[trigger] self.view_map().dom().contains(k) implies
                other.view_map().dom().contains(k) by {
                lemma_pairs_dom(self.mapping@, k);
                let t = choose|t: int| 0 <= t < self.mapping@.len()
                    && (#[trigger] self.mapping@[t]).0 == k;
            }
        }
        Ok(self.op(other))
    }
}

/// The map recorded by the first composition phase: each key of the prefix
/// `done` of the second factor's pair list goes to its image there, pushed
/// through the first factor's map `a` where that image is a key of `a`.
pub open spec fn spec_mapped_pairs(
    a: Map<usize, usize>,
    done: Seq<(usize, usize)>,
) -> Map<usize, usize>
    decreases done.len(),
{
    if done.len() == 0 {
        Map::empty()
    } else {
        let prev = spec_mapped_pairs(a, done.drop_last());
        let v = done.last().1;
        prev.insert(done.last().0, if a.dom().contains(v) { a[v] } else { v })
    }
}

/// The map after the second composition phase: `base` extended by those
/// pairs of the prefix `done` whose keys lie outside `b`'s domain.
pub open spec fn spec_residual(
    base: Map<usize, usize>,
    b: Map<usize, usize>,
    done: Seq<(usize, usize)>,
) -> Map<usize, usize>
    decreases done.len(),
{
    if done.len() == 0 {
        base
    } else {
        let prev = spec_residual(base, b, done.drop_last());
        if b.dom().contains(done.last().0) {
            prev
        } else {
            prev.insert(done.last().0, done.last().1)
        }
    }
}

/// The first phase covers exactly the second factor's keys, each sent to
/// its composed image.
proof fn lemma_mapped_pairs(a: Map<usize, usize>, done: Seq<(usize, usize)>)
    ensures
        spec_mapped_pairs(a, done).dom() =~= pairs_to_map(done).dom(),
        forall|k: usize| pairs_to_map(done).dom().contains(k)
            ==> #[trigger] spec_mapped_pairs(a, done)[k] == ({
                let v = pairs_to_map(done)[k];
                if a.dom().contains(v) { a[v] } else { v }
            }),
    decreases done.len(),
{
    if done.len() == 0 {
        assert(pairs_to_map(done).dom() =~= Set::<usize>::empty());
    } else {
        lemma_mapped_pairs(a, done.drop_last());
    }
}

/// The second phase keeps every entry of `base` whose key lies in `b`'s
/// domain and adds exactly the pairs keyed outside it.
proof fn lemma_residual(
    base: Map<usize, usize>,
    b: Map<usize, usize>,
    done: Seq<(usize, usize)>,
)
    ensures
        spec_residual(base, b, done).dom() =~= base.dom().union(
            pairs_to_map(done).dom().difference(b.dom())),
        forall|k: usize| base.dom().contains(k) && b.dom().contains(k)
            ==> #[trigger] spec_residual(base, b, done)[k] == base[k],
        forall|k: usize| pairs_to_map(done).dom().contains(k) && !b.dom().contains(k)
            ==> #[trigger] spec_residual(base, b, done)[k] == pairs_to_map(done)[k],
    decreases done.len(),
{
    if done.len() == 0 {
        assert(pairs_to_map(done).dom() =~= Set::<usize>::empty());
    } else {
        lemma_residual(base, b, done.drop_last());
    }
}

/// With pairwise-distinct keys, every pair decides its key's map entry.
proof fn lemma_pairs_distinct_lookup(pairs: Seq<(usize, usize)>, t: int)
    requires
        0 <= t < pairs.len(),
        forall|a: int, b: int| 0 <= a < b < pairs.len()
            ==> (#[trigger] pairs[a]).0 != (#[trigger] pairs[b]).0,
    ensures
        pairs_to_map(pairs).dom().contains(pairs[t].0),
        pairs_to_map(pairs)[pairs[t].0] == pairs[t].1,
    decreases pairs.len(),
{
    if t == pairs.len() - 1 {
    } else {
        assert(pairs[t].0 != pairs.last().0);
        lemma_pairs_distinct_lookup(pairs.drop_last(), t);
    }
}

/// A key is in the pair map iff some pair carries it.
proof fn lemma_pairs_dom(pairs: Seq<(usize, usize)>, key: usize)
    ensures
        pairs_to_map(pairs).dom().contains(key)
            <==> exists|t: int| 0 <= t < pairs.len() && (#[trigger] pairs[t]).0 == key,
    decreases pairs.len(),
{
    if pairs.len() == 0 {
        assert(pairs_to_map(pairs).dom() =~= Set::<usize>::empty());
    } else {
        lemma_pairs_dom(pairs.drop_last(), key);
        assert(pairs_to_map(pairs).dom()
            =~= pairs_to_map(pairs.drop_last()).dom().insert(pairs.last().0));
        if pairs.last().0 == key {
            assert(pairs[pairs.len() - 1].0 == key);
        } else {
            if pairs_to_map(pairs).dom().contains(key) {
                let t = choose|t: int| 0 <= t < pairs.drop_last().len()
                    && (#[trigger] pairs.drop_last()[t]).0 == key;
                assert(pairs[t].0 == key);
            }
            if exists|t: int| 0 <= t < pairs.len() && (#[trigger] pairs[t]).0 == key {
                let t = choose|t: int| 0 <= t < pairs.len() && (#[trigger] pairs[t]).0 == key;
                assert(t < pairs.len() - 1);
                assert(pairs.drop_last()[t].0 == key);
            }
        }
    }
}

} // verus!
