//! Modular-residue group elements, additive and multiplicative.

use vstd::prelude::*;
use core::marker::PhantomData;
use crate::error::AbsaglError;
use crate::groups::{Additive, CanonicalRepr, CheckedOp, GroupElement, Multiplicative};
use crate::groups::{push_u64_be, spec_u64_be};
use crate::utils;
use crate::utils::{gcd_nat, pow_mod, spec_mod_inv};

verus! {

/// Errors of the modular-residue element family.
#[derive(Debug)]
pub enum ModuloError {
    SizeNotMatch,
    ZeroModulus,
    ElementNotInGroup { value: u64, modulus: u64 },
    DifferentModuli,
}

/// A residue under a modulus; `Op` is a compile-time tag choosing the
/// additive or the multiplicative law, so the two behave as distinct types
/// sharing one representation.
#[derive(Debug, PartialEq, Eq, PartialOrd, Ord, Hash)]
pub struct Modulo<Op> {
    pub value: u64,
    pub modulus: u64,
    pub _marker: PhantomData<Op>,
}

impl<Op> Clone for Modulo<Op> {
    fn clone(&self) -> (r: Self)
        ensures
            r == *self,
    {
        Modulo { value: self.value, modulus: self.modulus, _marker: PhantomData }
    }
}

impl<Op> Copy for Modulo<Op> {

}

/// The properties a modulo operation tag must supply.
pub trait ModuloOperation: Sized + Sync {
    /// The identity residue of the operation.
    spec fn spec_identity() -> u64;

    /// Whether a residue is a valid member of the group under this law.
    spec fn spec_valid(value: u64, modulus: u64) -> bool;

    /// The order of a residue under this law.
    spec fn spec_order(value: u64, modulus: u64) -> u64;

    /// The full element list of the group mod `modulus` under this law.
    spec fn spec_elements(modulus: u64) -> Seq<Modulo<Self>>;

    /// The identity element for the operation (0 for addition, 1 for
    /// multiplication).
    fn identity() -> (r: u64)
        ensures
            r == Self::spec_identity(),
    ;

    /// Checks if a residue is a valid member of the group mod `modulus`.
    fn is_valid(value: u64, modulus: u64) -> (r: bool)
        requires
            modulus >= 1,
        ensures
            r == Self::spec_valid(value, modulus),
    ;

    /// Returns the order of the residue.
    fn order(value: u64, modulus: u64) -> (r: u64)
        requires
            modulus >= 1,
            value < modulus,
            Self::spec_valid(value, modulus),
        ensures
            r == Self::spec_order(value, modulus),
    ;

    /// The symbol of the operation, for display.
    fn symbol() -> &'static str;

    /// Generates the whole group mod `modulus` under this law.
    fn generate_group(modulus: u64) -> (r: Result<Vec<Modulo<Self>>, AbsaglError>)
        ensures
            r is Ok,
            r matches Ok(v) ==> v@ == Self::spec_elements(modulus),
    ;
}

impl ModuloOperation for Additive {
    open spec fn spec_identity() -> u64 {
        0
    }

    /// Every residue is a valid additive member.
    open spec fn spec_valid(value: u64, modulus: u64) -> bool {
        true
    }

    /// The additive order of v in Z_n is n / gcd(n, v).
    open spec fn spec_order(value: u64, modulus: u64) -> u64 {
        (modulus as nat / gcd_nat(modulus as nat, value as nat)) as u64
    }

    open spec fn spec_elements(modulus: u64) -> Seq<Modulo<Additive>> {
        Seq::new(
            modulus as nat,
            |i: int| Modulo { value: i as u64, modulus, _marker: PhantomData },
        )
    }

    fn identity() -> (r: u64) {
        0
    }

    fn is_valid(value: u64, modulus: u64) -> (r: bool) {
        true
    }

    fn order(value: u64, modulus: u64) -> (r: u64) {
        proof {
            utils::lemma_gcd_pos(modulus as nat, value as nat);
            utils::lemma_gcd_divides(modulus as nat, value as nat);
            let g = gcd_nat(modulus as nat, value as nat);
            let k = choose|k: nat| modulus as nat == #[trigger] (k * g);
            assert(modulus as int == (g as int) * (k as int)) by (nonlinear_arith)
                requires modulus as nat == k * g;
            vstd::arithmetic::div_mod::lemma_div_multiples_vanish(k as int, g as int);
        }
        modulus / utils::gcd_u64(modulus, value)
    }

    fn symbol() -> &'static str {
        "+"
    }

    fn generate_group(modulus: u64) -> (r: Result<Vec<Modulo<Additive>>, AbsaglError>) {
        let mut elements: Vec<Modulo<Additive>> = Vec::new();
        let mut i: u64 = 0;
        while i < modulus
            invariant
                i <= modulus,
                elements@.len() == i as nat,
                forall|k: int| 0 <= k < i
                    ==> elements@[k] == (Modulo::<Additive> {
                        value: k as u64,
                        modulus,
                        _marker: PhantomData,
                    }),
            decreases modulus - i,
        {
            elements.push(Modulo { value: i, modulus, _marker: PhantomData });
            i = i + 1;
        }
        proof {
            assert(elements@ =~= Additive::spec_elements(modulus));
        }
        Ok(elements)
    }
}

impl ModuloOperation for Multiplicative {
    open spec fn spec_identity() -> u64 {
        1
    }

    /// A residue is a valid multiplicative member iff it is coprime to the
    /// modulus; the modulus bound keeps the inverse computable in i64.
    open spec fn spec_valid(value: u64, modulus: u64) -> bool {
        gcd_nat(value as nat, modulus as nat) == 1 && modulus <= i64::MAX as u64
    }

    /// The multiplicative order: the least k in 1..=n with v^k == 1 mod n,
    /// and n when no such k exists.
    open spec fn spec_order(value: u64, modulus: u64) -> u64 {
        mult_order_from(value as nat, modulus as nat, 1) as u64
    }

    open spec fn spec_elements(modulus: u64) -> Seq<Modulo<Multiplicative>> {
        if modulus == 0 {
            Seq::empty()
        } else {
            Seq::new((modulus - 1) as nat, |i: int| Modulo {
                value: (i + 1) as u64,
                modulus,
                _marker: PhantomData,
            }).filter(|m: Modulo<Multiplicative>| Multiplicative::spec_valid(m.value, modulus))
        }
    }

    fn identity() -> (r: u64) {
        1
    }

    fn is_valid(value: u64, modulus: u64) -> (r: bool) {
        utils::gcd_u64(value, modulus) == 1 && modulus <= (i64::MAX as u64)
    }

    fn order(value: u64, modulus: u64) -> (r: u64) {
        let id: u64 = 1 % modulus;
        let mut acc: u64 = value % modulus;
        let mut k: u64 = 1;
        proof {
            vstd::arithmetic::div_mod::lemma_mod_bound(value as int, modulus as int);
            lemma_pow_mod_one(value as nat, modulus as nat);
            assert(pow_mod(value as nat, 1, modulus as nat) == (value as nat) % (modulus as nat));
        }
        while acc != id && k < modulus
            invariant
                modulus >= 1,
                value < modulus,
                1 <= k <= modulus,
                id == 1nat % (modulus as nat),
                acc == pow_mod(value as nat, k as nat, modulus as nat),
                forall|j: nat| 1 <= j < k ==> pow_mod(value as nat, j, modulus as nat)
                    != 1nat % (modulus as nat),
            decreases modulus - k,
        {
            proof {
                assert((acc as int) * (value as int) <= (u64::MAX as int) * (u64::MAX as int))
                    by (nonlinear_arith)
                    requires 0 <= acc as int <= u64::MAX as int, 0 <= value as int <= u64::MAX as int;
            }
            let next = (((acc as u128) * (value as u128)) % (modulus as u128)) as u64;
            proof {
                lemma_pow_mod_step(value as nat, k as nat, modulus as nat);
                vstd::arithmetic::div_mod::lemma_mod_bound(
                    (acc as int) * (value as int),
                    modulus as int,
                );
                assert((acc as nat * value as nat) % (modulus as nat)
                    == ((acc as u128 as nat) * (value as u128 as nat)) % (modulus as u128 as nat));
            }
            acc = next;
            k = k + 1;
        }
        if acc == id {
            proof {
                lemma_mult_order_found(value as nat, modulus as nat, k as nat);
            }
            k
        } else {
            proof {
                lemma_mult_order_missing(value as nat, modulus as nat);
            }
            modulus
        }
    }

    fn symbol() -> &'static str {
        "\u{00d7}"
    }

    fn generate_group(modulus: u64) -> (r: Result<Vec<Modulo<Multiplicative>>, AbsaglError>) {
        let mut elements: Vec<Modulo<Multiplicative>> = Vec::new();
        let mut i: u64 = 1;
        let ghost all = Seq::new(
            if modulus >= 1 { (modulus - 1) as nat } else { 0nat },
            |k: int| Modulo::<Multiplicative> { value: (k + 1) as u64, modulus, _marker: PhantomData },
        );
        let ghost keep = |m: Modulo<Multiplicative>| Multiplicative::spec_valid(m.value, modulus);
        if modulus == 0 {
            proof {
                assert(elements@ =~= Multiplicative::spec_elements(0));
            }
            return Ok(elements);
        }
        while i < modulus
            invariant
                1 <= i <= modulus,
                modulus >= 1,
                all == Seq::new((modulus - 1) as nat, |k: int| Modulo::<Multiplicative> {
                    value: (k + 1) as u64,
                    modulus,
                    _marker: PhantomData,
                }),
                keep == (|m: Modulo<Multiplicative>| Multiplicative::spec_valid(m.value, modulus)),
                elements@ == all.take(i - 1).filter(keep),
            decreases modulus - i,
        {
            proof {
                reveal(Seq::filter);
                assert(all.take(i as int).drop_last() =~= all.take(i - 1));
                assert(all.take(i as int).last() == all[i - 1]);
            }
            if utils::gcd_u64(i, modulus) == 1 && modulus <= (i64::MAX as u64) {
                elements.push(Modulo { value: i, modulus, _marker: PhantomData });
                proof {
                    assert(all[i - 1] == (Modulo::<Multiplicative> {
                        value: i,
                        modulus,
                        _marker: PhantomData,
                    }));
                    assert(keep(all[i - 1]));
                    assert(elements@ == all.take(i as int).filter(keep));
                }
            } else {
                proof {
                    assert(!keep(all[i - 1]));
                    assert(elements@ == all.take(i as int).filter(keep));
                }
            }
            i = i + 1;
        }
        proof {
            assert(all.take((modulus - 1) as int) =~= all);
            assert(elements@ =~= Multiplicative::spec_elements(modulus));
        }
        Ok(elements)
    }
}

impl GroupElement for Modulo<Additive> {
    /// A residue is its own mathematical value.
    type Model = Modulo<Additive>;

    open spec fn model(self) -> Modulo<Additive> {
        self
    }

    /// A valid additive residue lies strictly below its nonzero modulus.
    open spec fn m_wf(m: Modulo<Additive>) -> bool {
        m.modulus >= 1 && m.value < m.modulus
    }

    open spec fn m_compat(a: Modulo<Additive>, b: Modulo<Additive>) -> bool {
        a.modulus == b.modulus
    }

    open spec fn m_op(a: Modulo<Additive>, b: Modulo<Additive>) -> Modulo<Additive> {
        Modulo {
            value: (((a.value + b.value) as nat) % (a.modulus as nat)) as u64,
            modulus: a.modulus,
            _marker: PhantomData,
        }
    }

    open spec fn m_inv(a: Modulo<Additive>) -> Modulo<Additive> {
        Modulo {
            value: (((a.modulus - a.value) as nat) % (a.modulus as nat)) as u64,
            modulus: a.modulus,
            _marker: PhantomData,
        }
    }

    proof fn lemma_compat_refl(a: Modulo<Additive>) {
    }

    proof fn lemma_compat_sym(a: Modulo<Additive>, b: Modulo<Additive>) {
    }

    proof fn lemma_compat_trans(a: Modulo<Additive>, b: Modulo<Additive>, c: Modulo<Additive>) {
    }

    proof fn lemma_op_wf(a: Modulo<Additive>, b: Modulo<Additive>) {
        vstd::arithmetic::div_mod::lemma_mod_bound(
            (a.value + b.value) as int,
            a.modulus as int,
        );
    }

    proof fn lemma_inv_wf(a: Modulo<Additive>) {
        vstd::arithmetic::div_mod::lemma_mod_bound(
            (a.modulus - a.value) as int,
            a.modulus as int,
        );
    }

    fn op(&self, other: &Self) -> (r: Self) {
        let n = self.modulus;
        let v = if other.value >= n - self.value {
            other.value - (n - self.value)
        } else {
            self.value + other.value
        };
        proof {
            let s = (self.value + other.value) as int;
            if other.value >= n - self.value {
                vstd::arithmetic::div_mod::lemma_mod_multiples_vanish(1, s - n, n as int);
                vstd::arithmetic::div_mod::lemma_small_mod((s - n) as nat, n as nat);
            } else {
                vstd::arithmetic::div_mod::lemma_small_mod(s as nat, n as nat);
            }
        }
        Modulo { value: v, modulus: n, _marker: PhantomData }
    }

    fn inverse(&self) -> (r: Self) {
        proof {
            if self.value > 0 {
                vstd::arithmetic::div_mod::lemma_small_mod(
                    (self.modulus - self.value) as nat,
                    self.modulus as nat,
                );
            } else {
                vstd::arithmetic::div_mod::lemma_mod_self_0(self.modulus as int);
            }
        }
        Modulo {
            value: (self.modulus - self.value) % self.modulus,
            modulus: self.modulus,
            _marker: PhantomData,
        }
    }

    fn eq_el(&self, other: &Self) -> (r: bool) {
        self.value == other.value && self.modulus == other.modulus
    }

    fn compatible(&self, other: &Self) -> (r: bool) {
        self.modulus == other.modulus
    }

    fn clone_el(&self) -> (r: Self) {
        Modulo { value: self.value, modulus: self.modulus, _marker: PhantomData }
    }
}

impl GroupElement for Modulo<Multiplicative> {
    /// A residue is its own mathematical value.
    type Model = Modulo<Multiplicative>;

    open spec fn model(self) -> Modulo<Multiplicative> {
        self
    }

    /// A valid multiplicative residue is coprime to its modulus; the i64
    /// bound keeps the extended Euclidean inverse within machine range.
    open spec fn m_wf(m: Modulo<Multiplicative>) -> bool {
        &&& m.modulus >= 1
        &&& m.value < m.modulus
        &&& gcd_nat(m.value as nat, m.modulus as nat) == 1
        &&& m.modulus <= i64::MAX as u64
    }

    open spec fn m_compat(a: Modulo<Multiplicative>, b: Modulo<Multiplicative>) -> bool {
        a.modulus == b.modulus
    }

    open spec fn m_op(a: Modulo<Multiplicative>, b: Modulo<Multiplicative>) -> Modulo<Multiplicative> {
        Modulo {
            value: (((a.value * b.value) as nat) % (a.modulus as nat)) as u64,
            modulus: a.modulus,
            _marker: PhantomData,
        }
    }

    open spec fn m_inv(a: Modulo<Multiplicative>) -> Modulo<Multiplicative> {
        Modulo {
            value: spec_mod_inv(a.value as int, a.modulus as int) as u64,
            modulus: a.modulus,
            _marker: PhantomData,
        }
    }

    proof fn lemma_compat_refl(a: Modulo<Multiplicative>) {
    }

    proof fn lemma_compat_sym(a: Modulo<Multiplicative>, b: Modulo<Multiplicative>) {
    }

    proof fn lemma_compat_trans(
        a: Modulo<Multiplicative>,
        b: Modulo<Multiplicative>,
        c: Modulo<Multiplicative>,
    ) {
    }

    proof fn lemma_op_wf(a: Modulo<Multiplicative>, b: Modulo<Multiplicative>) {
        vstd::arithmetic::div_mod::lemma_mod_bound(
            (a.value * b.value) as int,
            a.modulus as int,
        );
        utils::lemma_coprime_mul(a.value as nat, b.value as nat, a.modulus as nat);
    }

    proof fn lemma_inv_wf(a: Modulo<Multiplicative>) {
        lemma_mult_inverse_wf(a.value as nat, a.modulus as nat);
    }

    fn op(&self, other: &Self) -> (r: Self) {
        let n = self.modulus;
        proof {
            assert((self.value as int) * (other.value as int)
                <= (u64::MAX as int) * (u64::MAX as int)) by (nonlinear_arith)
                requires
                    0 <= self.value as int <= u64::MAX as int,
                    0 <= other.value as int <= u64::MAX as int,
            ;
        }
        let prod: u128 = (self.value as u128) * (other.value as u128);
        let v: u64 = (prod % (n as u128)) as u64;
        proof {
            vstd::arithmetic::div_mod::lemma_mod_bound(prod as int, n as int);
        }
        Modulo { value: v, modulus: n, _marker: PhantomData }
    }

    fn inverse(&self) -> (r: Self) {
        let inv = utils::modular_inverse(self.value as i64, self.modulus as i64);
        proof {
            utils::lemma_egcd_bounds(self.value as int, self.modulus as int);
        }
        match inv {
            Some(x) => Modulo { value: x as u64, modulus: self.modulus, _marker: PhantomData },
            None => {
                // Unreachable: a valid member is coprime to the modulus.
                proof {
                    assert(false);
                }
                Modulo { value: 0, modulus: self.modulus, _marker: PhantomData }
            },
        }
    }

    fn eq_el(&self, other: &Self) -> (r: bool) {
        self.value == other.value && self.modulus == other.modulus
    }

    fn compatible(&self, other: &Self) -> (r: bool) {
        self.modulus == other.modulus
    }

    fn clone_el(&self) -> (r: Self) {
        Modulo { value: self.value, modulus: self.modulus, _marker: PhantomData }
    }
}

/// The canonical residue of the Bezout coefficient is itself coprime to n.
proof fn lemma_mult_inverse_wf(a: nat, n: nat)
    requires
        n >= 1,
        gcd_nat(a, n) == 1,
    ensures
        spec_mod_inv(a as int, n as int) < n,
        gcd_nat(spec_mod_inv(a as int, n as int) as nat, n as nat) == 1,
{
    let ai = a as int;
    let ni = n as int;
    let u = utils::egcd(ai, ni).1;
    let v = utils::egcd(ai, ni).2;
    utils::lemma_egcd_correct(ai, ni);
    vstd::arithmetic::div_mod::lemma_mod_bound(u, ni);
    vstd::arithmetic::div_mod::lemma_mod_bound(u % ni + ni, ni);
    // spec_mod_inv(a, n) == u % n.
    vstd::arithmetic::div_mod::lemma_mod_multiples_vanish(1, u % ni, ni);
    vstd::arithmetic::div_mod::lemma_small_mod((u % ni) as nat, n);
    let um = spec_mod_inv(ai, ni);
    assert(um == u % ni);
    // u * a + n * v == 1, so (u % n) * a + n * (v + (u / n) * a) == 1.
    assert(u * ai + ni * v == 1) by (nonlinear_arith)
        requires ai * u + ni * v == 1;
    vstd::arithmetic::div_mod::lemma_fundamental_div_mod(u, ni);
    let q = u / ni;
    assert((u % ni) * ai + ni * (v + q * ai) == 1) by (nonlinear_arith)
        requires
            u * ai + ni * v == 1,
            u == ni * q + (u % ni),
    ;
    utils::lemma_bezout_gcd_one(um as nat, n, ai, v + q * ai);
}

impl CheckedOp for Modulo<Additive> {
    type Error = ModuloError;

    open spec fn spec_wrap(e: ModuloError) -> AbsaglError {
        AbsaglError::Modulo(e)
    }

    fn checked_op(&self, other: &Self) -> (r: Result<Self, ModuloError>) {
        if self.modulus != other.modulus {
            Err(ModuloError::SizeNotMatch)
        } else {
            Ok(self.op(other))
        }
    }

    proof fn lemma_wrap_not_hom(e: ModuloError) {
    }

    fn wrap_err(e: ModuloError) -> (r: AbsaglError) {
        AbsaglError::Modulo(e)
    }
}

impl CheckedOp for Modulo<Multiplicative> {
    type Error = ModuloError;

    open spec fn spec_wrap(e: ModuloError) -> AbsaglError {
        AbsaglError::Modulo(e)
    }

    fn checked_op(&self, other: &Self) -> (r: Result<Self, ModuloError>) {
        if self.modulus != other.modulus {
            Err(ModuloError::SizeNotMatch)
        } else {
            Ok(self.op(other))
        }
    }

    proof fn lemma_wrap_not_hom(e: ModuloError) {
    }

    fn wrap_err(e: ModuloError) -> (r: AbsaglError) {
        AbsaglError::Modulo(e)
    }
}

impl CanonicalRepr for Modulo<Additive> {
    /// Big-endian value bytes followed by big-endian modulus bytes.
    open spec fn m_canon(m: Modulo<Additive>) -> Seq<u8> {
        spec_u64_be(m.value) + spec_u64_be(m.modulus)
    }

    fn to_canonical_bytes(&self) -> (r: Vec<u8>) {
        let mut out: Vec<u8> = Vec::new();
        push_u64_be(&mut out, self.value);
        push_u64_be(&mut out, self.modulus);
        proof {
            assert(out@ =~= Self::m_canon(self.model()));
        }
        out
    }
}

impl CanonicalRepr for Modulo<Multiplicative> {
    /// Big-endian value bytes followed by big-endian modulus bytes.
    open spec fn m_canon(m: Modulo<Multiplicative>) -> Seq<u8> {
        spec_u64_be(m.value) + spec_u64_be(m.modulus)
    }

    fn to_canonical_bytes(&self) -> (r: Vec<u8>) {
        let mut out: Vec<u8> = Vec::new();
        push_u64_be(&mut out, self.value);
        push_u64_be(&mut out, self.modulus);
        proof {
            assert(out@ =~= Self::m_canon(self.model()));
        }
        out
    }
}

impl<Op: ModuloOperation> Modulo<Op> {
    /// Creates a new residue, reducing the value into range; rejects a zero
    /// modulus and, for the multiplicative law, a value that is not a group
    /// member.
    pub fn new(value: u64, modulus: u64) -> (r: Result<Self, AbsaglError>)
        ensures
            r is Ok <==> modulus >= 1 && Op::spec_valid((value as nat % modulus as nat) as u64,
                modulus),
            r matches Ok(m) ==> m == (Modulo::<Op> {
                value: (value as nat % modulus as nat) as u64,
                modulus,
                _marker: PhantomData,
            }),
            modulus == 0 ==> r matches Err(AbsaglError::Modulo(ModuloError::ZeroModulus)),
            modulus >= 1 && !Op::spec_valid((value as nat % modulus as nat) as u64, modulus)
                ==> (r matches Err(AbsaglError::Modulo(ModuloError::ElementNotInGroup {
                    value: v,
                    modulus: m,
                })) && v == (value as nat % modulus as nat) as u64 && m == modulus),
    {
        if modulus == 0 {
            return Err(AbsaglError::Modulo(ModuloError::ZeroModulus));
        }
        let value = value % modulus;
        if !Op::is_valid(value, modulus) {
            return Err(AbsaglError::Modulo(ModuloError::ElementNotInGroup { value, modulus }));
        }
        Ok(Modulo { value, modulus, _marker: PhantomData })
    }

    /// Creates a new residue, exactly as `new` does; the checked constructor
    /// under its fallible-path name.
    pub fn try_new(value: u64, modulus: u64) -> (r: Result<Self, AbsaglError>)
        ensures
            r is Ok <==> modulus >= 1 && Op::spec_valid((value as nat % modulus as nat) as u64,
                modulus),
            r matches Ok(m) ==> m == (Modulo::<Op> {
                value: (value as nat % modulus as nat) as u64,
                modulus,
                _marker: PhantomData,
            }),
            modulus == 0 ==> r matches Err(AbsaglError::Modulo(ModuloError::ZeroModulus)),
    {
        Self::new(value, modulus)
    }

    /// The identity element of the group mod `modulus` under this law; the
    /// caller keeps the identity within range of the modulus.
    pub fn identity(modulus: u64) -> (r: Self)
        requires
            Op::spec_identity() < modulus,
        ensures
            r == (Modulo::<Op> { value: Op::spec_identity(), modulus, _marker: PhantomData }),
    {
        Modulo { value: Op::identity(), modulus, _marker: PhantomData }
    }

    /// Returns the residue value of the element.
    pub fn value(&self) -> (r: u64)
        ensures
            r == self.value,
    {
        self.value
    }

    /// Returns the modulus of the element.
    pub fn modulus(&self) -> (r: u64)
        ensures
            r == self.modulus,
    {
        self.modulus
    }

    /// Returns the order of the element under this law.
    pub fn order(&self) -> (r: u64)
        requires
            self.modulus >= 1,
            self.value < self.modulus,
            Op::spec_valid(self.value, self.modulus),
        ensures
            r == Op::spec_order(self.value, self.modulus),
    {
        Op::order(self.value, self.modulus)
    }

    /// Generates the element list of the group mod `n` under this law.
    pub fn generate_group(n: u64) -> (r: Result<Vec<Self>, AbsaglError>)
        ensures
            r is Ok,
            r matches Ok(v) ==> v@ == Op::spec_elements(n),
    {
        Op::generate_group(n)
    }
}

// ---- spec machinery for the multiplicative order ----

/// The first k >= start, k <= n, with v^k == 1 mod n; n when none exists.
pub open spec fn mult_order_from(v: nat, n: nat, start: nat) -> nat
    decreases n + 1 - start when start <= n + 1
{
    if start > n {
        n
    } else if pow_mod(v, start, n) == 1nat % n {
        start
    } else {
        mult_order_from(v, n, start + 1)
    }
}

proof fn lemma_mult_order_skip(v: nat, n: nat, start: nat, k: nat)
    requires
        n >= 1,
        1 <= start <= k,
        k <= n + 1,
        forall|j: nat| start <= j < k ==> pow_mod(v, j, n) != 1nat % n,
    ensures
        mult_order_from(v, n, start) == mult_order_from(v, n, k),
    decreases k - start,
{
    if start < k {
        lemma_mult_order_skip(v, n, start + 1, k);
    }
}

proof fn lemma_mult_order_found(v: nat, n: nat, k: nat)
    requires
        n >= 1,
        1 <= k <= n,
        pow_mod(v, k, n) == 1nat % n,
        forall|j: nat| 1 <= j < k ==> pow_mod(v, j, n) != 1nat % n,
    ensures
        mult_order_from(v, n, 1) == k,
{
    lemma_mult_order_skip(v, n, 1, k);
}

proof fn lemma_mult_order_missing(v: nat, n: nat)
    requires
        n >= 1,
        forall|j: nat| 1 <= j <= n ==> pow_mod(v, j, n) != 1nat % n,
    ensures
        mult_order_from(v, n, 1) == n,
{
    lemma_mult_order_skip(v, n, 1, n + 1);
}

/// pow_mod at exponent 1 is the reduced base.
proof fn lemma_pow_mod_one(v: nat, n: nat)
    requires
        n >= 1,
    ensures
        pow_mod(v, 1, n) == v % n,
{
    assert(pow_mod(v, 0, n) == 1nat % n);
    if n == 1 {
        vstd::arithmetic::div_mod::lemma_mod_bound((v * (1nat % n)) as int, n as int);
        vstd::arithmetic::div_mod::lemma_mod_bound(v as int, n as int);
    } else {
        vstd::arithmetic::div_mod::lemma_small_mod(1nat, n);
        assert(1nat % n == 1);
        assert(v * 1 == v) by (nonlinear_arith);
        vstd::arithmetic::div_mod::lemma_mod_bound(v as int, n as int);
    }
}

/// One multiplication step advances pow_mod by one exponent.
proof fn lemma_pow_mod_step(v: nat, k: nat, n: nat)
    requires
        n >= 1,
    ensures
        (pow_mod(v, k, n) * v) % n == pow_mod(v, (k + 1) as nat, n),
{
    assert(pow_mod(v, (k + 1) as nat, n) == (v * pow_mod(v, k, n)) % n);
    assert(v * pow_mod(v, k, n) == pow_mod(v, k, n) * v) by (nonlinear_arith);
}

} // verus!

verus! {

/// The additive group mod n is well formed, closed, has 0 as a two-sided
/// identity, and contains every member's inverse, which cancels the member.
#[verifier::rlimit(100)]
#[verifier::spinoff_prover]
pub proof fn lemma_additive_group_laws(n: u64)
    ensures
        crate::groups::models(Additive::spec_elements(n)) =~= Additive::spec_elements(n),
        crate::groups::seq_wf::<Modulo<Additive>>(Additive::spec_elements(n)),
        crate::groups::seq_closed::<Modulo<Additive>>(Additive::spec_elements(n)),
        crate::groups::seq_abelian::<Modulo<Additive>>(Additive::spec_elements(n)),
        n >= 1 ==> crate::groups::identity_in::<Modulo<Additive>>(
            Additive::spec_elements(n),
            Modulo { value: 0, modulus: n, _marker: PhantomData },
        ),
        n >= 1 ==> Additive::spec_elements(n).contains(
            Modulo { value: 0, modulus: n, _marker: PhantomData },
        ),
        forall|i: int| 0 <= i < Additive::spec_elements(n).len()
            ==> Additive::spec_elements(n).contains(
                <Modulo<Additive> as GroupElement>::m_inv(
                    #[trigger] Additive::spec_elements(n)[i]),
            ),
        forall|i: int| 0 <= i < Additive::spec_elements(n).len()
            ==> <Modulo<Additive> as GroupElement>::m_op(
                #[trigger] Additive::spec_elements(n)[i],
                <Modulo<Additive> as GroupElement>::m_inv(Additive::spec_elements(n)[i]))
                == (Modulo::<Additive> { value: 0, modulus: n, _marker: PhantomData })
                && <Modulo<Additive> as GroupElement>::m_op(
                    <Modulo<Additive> as GroupElement>::m_inv(Additive::spec_elements(n)[i]),
                    Additive::spec_elements(n)[i])
                    == (Modulo::<Additive> { value: 0, modulus: n, _marker: PhantomData }),
{
    let s = Additive::spec_elements(n);
    assert forall|i: int| 0 <= i < s.len() implies
        <Modulo<Additive> as GroupElement>::m_op(#[trigger] s[i],
            <Modulo<Additive> as GroupElement>::m_inv(s[i]))
            == (Modulo::<Additive> { value: 0, modulus: n, _marker: PhantomData })
            && <Modulo<Additive> as GroupElement>::m_op(
                <Modulo<Additive> as GroupElement>::m_inv(s[i]), s[i])
                == (Modulo::<Additive> { value: 0, modulus: n, _marker: PhantomData }) by {
        let v = s[i].value;
        vstd::arithmetic::div_mod::lemma_mod_bound((n - v) as int, n as int);
        let w = <Modulo<Additive> as GroupElement>::m_inv(s[i]).value;
        if v == 0 {
            vstd::arithmetic::div_mod::lemma_mod_self_0(n as int);
            vstd::arithmetic::div_mod::lemma_small_mod(0nat, n as nat);
        } else {
            vstd::arithmetic::div_mod::lemma_small_mod((n - v) as nat, n as nat);
            assert(w == n - v);
            vstd::arithmetic::div_mod::lemma_mod_self_0(n as int);
        }
    }
    assert forall|i: int, j: int| 0 <= i < s.len() && 0 <= j < s.len() implies
        s.contains(#[trigger] <Modulo<Additive> as GroupElement>::m_op(s[i], s[j])) by {
        let p = <Modulo<Additive> as GroupElement>::m_op(s[i], s[j]);
        vstd::arithmetic::div_mod::lemma_mod_bound((i + j) as int, n as int);
        assert(p == s[p.value as int]);
    }
    assert forall|i: int, j: int| 0 <= i < s.len() && 0 <= j < s.len() implies
        #[trigger] <Modulo<Additive> as GroupElement>::m_op(s[i], s[j])
            == <Modulo<Additive> as GroupElement>::m_op(s[j], s[i]) by {
    }
    if n >= 1 {
        let e = Modulo::<Additive> { value: 0, modulus: n, _marker: PhantomData };
        assert(e == s[0]);
        assert forall|i: int| 0 <= i < s.len() implies
            #[trigger] <Modulo<Additive> as GroupElement>::m_op(s[i], e) == s[i]
                && <Modulo<Additive> as GroupElement>::m_op(e, s[i]) == s[i] by {
            vstd::arithmetic::div_mod::lemma_small_mod(i as nat, n as nat);
        }
    }
    assert forall|i: int| 0 <= i < s.len() implies
        s.contains(<Modulo<Additive> as GroupElement>::m_inv(#[trigger] s[i])) by {
        let v = <Modulo<Additive> as GroupElement>::m_inv(s[i]);
        vstd::arithmetic::div_mod::lemma_mod_bound((n - i) as int, n as int);
        assert(v == s[v.value as int]);
    }
}

/// The multiplicative group of units mod n is well formed and closed.
pub proof fn lemma_multiplicative_group_laws(n: u64)
    ensures
        crate::groups::models(Multiplicative::spec_elements(n))
            =~= Multiplicative::spec_elements(n),
        crate::groups::seq_wf::<Modulo<Multiplicative>>(Multiplicative::spec_elements(n)),
        crate::groups::seq_closed::<Modulo<Multiplicative>>(Multiplicative::spec_elements(n)),
{
    let s = Multiplicative::spec_elements(n);
    if n == 0 {
        assert(s.len() == 0);
    } else {
        let all = Seq::new((n - 1) as nat, |i: int| Modulo::<Multiplicative> {
            value: (i + 1) as u64,
            modulus: n,
            _marker: PhantomData,
        });
        let keep = |m: Modulo<Multiplicative>| Multiplicative::spec_valid(m.value, n);
        assert(s == all.filter(keep));
        all.filter_lemma(keep);
        assert forall|i: int| 0 <= i < s.len() implies
            <Modulo<Multiplicative> as GroupElement>::m_wf(#[trigger] s[i]) by {
            assert(keep(s[i]));
            all.lemma_filter_contains_rev(keep, s[i]);
            let j = choose|j: int| 0 <= j < all.len() && all[j] == s[i];
            assert(s[i].value == j + 1 && s[i].modulus == n);
        }
        assert forall|i: int, j: int| 0 <= i < s.len() && 0 <= j < s.len() implies
            #[trigger] <Modulo<Multiplicative> as GroupElement>::m_compat(s[i], s[j]) by {
            all.lemma_filter_contains_rev(keep, s[i]);
            all.lemma_filter_contains_rev(keep, s[j]);
            let a = choose|a: int| 0 <= a < all.len() && all[a] == s[i];
            let b = choose|b: int| 0 <= b < all.len() && all[b] == s[j];
        }
        assert forall|i: int, j: int| 0 <= i < s.len() && 0 <= j < s.len() implies
            s.contains(#[trigger] <Modulo<Multiplicative> as GroupElement>::m_op(s[i], s[j])) by {
            assert(keep(s[i]) && keep(s[j]));
            all.lemma_filter_contains_rev(keep, s[i]);
            all.lemma_filter_contains_rev(keep, s[j]);
            let a = choose|a: int| 0 <= a < all.len() && all[a] == s[i];
            let b = choose|b: int| 0 <= b < all.len() && all[b] == s[j];
            let p = <Modulo<Multiplicative> as GroupElement>::m_op(s[i], s[j]);
            vstd::arithmetic::div_mod::lemma_mod_bound(
                (s[i].value * s[j].value) as int, n as int);
            utils::lemma_coprime_mul(s[i].value as nat, s[j].value as nat, n as nat);
            // The product is coprime to n, hence nonzero when n >= 2, and in
            // range, so it sits in the unfiltered list and survives the
            // filter.
            assert(p.value >= 1) by {
                if p.value == 0 {
                    assert(gcd_nat(0, n as nat) == n as nat) by {
                        assert(gcd_nat(0, n as nat) == gcd_nat(n as nat, 0));
                    }
                    assert(n == 1);
                    assert(gcd_nat(s[i].value as nat, 1) == 1);
                    assert(s[i].value < 1);
                    assert(gcd_nat(0, 1) == gcd_nat(1, 0));
                }
            }
            assert(all[p.value - 1] == p);
            assert(keep(p));
            assert(all.filter(keep).contains(all[p.value - 1]));
        }
    }
}

} // verus!
