//! Pure numeric utilities: gcd, lcm, the extended Euclidean algorithm,
//! modular inverses, prime factorization, and permutation-mapping validity.

use vstd::prelude::*;
use vstd::arithmetic::div_mod::*;
use vstd::arithmetic::mul::*;

verus! {

/// `d` divides `x`.
pub open spec fn divides(d: nat, x: nat) -> bool {
    exists|k: nat| x == #[trigger] (k * d)
}

/// The greatest common divisor, by the Euclidean recursion.
pub open spec fn gcd_nat(a: nat, b: nat) -> nat
    decreases b,
{
    if b == 0 {
        a
    } else {
        gcd_nat(b, a % b)
    }
}

/// The least common multiple; zero when either argument is zero.
pub open spec fn lcm_nat(a: nat, b: nat) -> nat {
    if a == 0 || b == 0 {
        0
    } else {
        a * b / gcd_nat(a, b)
    }
}

/// The extended Euclidean recursion: returns (g, u, v) with a*u + b*v == g.
pub open spec fn egcd(a: int, b: int) -> (int, int, int)
    recommends
        a >= 0,
        b >= 0,
    decreases b when b >= 0
{
    if b <= 0 {
        (a, 1, 0)
    } else {
        let (g, u1, v1) = egcd(b, a % b);
        (g, v1, u1 - (a / b) * v1)
    }
}

/// The canonical residue of the Bezout coefficient of `a`, used as the
/// modular inverse of `a` modulo `n` when gcd(a, n) == 1.
pub open spec fn spec_mod_inv(a: int, n: int) -> int {
    (egcd(a, n).1 % n + n) % n
}

/// v^k mod n, defined by recursion on the exponent.
pub open spec fn pow_mod(v: nat, k: nat, n: nat) -> nat
    decreases k,
{
    if n == 0 {
        0
    } else if k == 0 {
        1nat % n
    } else {
        (v * pow_mod(v, (k - 1) as nat, n)) % n
    }
}

/// A natural number with no divisor strictly between 1 and itself.
pub open spec fn is_prime(p: nat) -> bool {
    p >= 2 && forall|d: nat| 1 < d < p ==> !divides(d, p)
}

/// b raised to the power e.
pub open spec fn pow_nat(b: nat, e: nat) -> nat
    decreases e,
{
    if e == 0 {
        1
    } else {
        b * pow_nat(b, (e - 1) as nat)
    }
}

/// The product of all prime powers p^k in a factor list.
pub open spec fn factors_product(s: Seq<(u64, u32)>) -> nat
    decreases s.len(),
{
    if s.len() == 0 {
        1
    } else {
        factors_product(s.drop_last()) * pow_nat(s.last().0 as nat, s.last().1 as nat)
    }
}

/// A sequence is a valid permutation mapping of 0..n: every image is in
/// range and no image repeats.
pub open spec fn is_valid_mapping(m: Seq<usize>) -> bool {
    &&& forall|i: int| 0 <= i < m.len() ==> m[i] < m.len()
    &&& forall|i: int, j: int| 0 <= i < j < m.len() ==> m[i] != m[j]
}

/// The gcd divides both of its arguments.
pub proof fn lemma_gcd_divides(a: nat, b: nat)
    ensures
        divides(gcd_nat(a, b), a),
        divides(gcd_nat(a, b), b),
    decreases b,
{
    if b == 0 {
        assert(a == 1 * a);
        assert(b == 0 * a);
    } else {
        lemma_gcd_divides(b, a % b);
        let g = gcd_nat(b, a % b);
        let k1 = choose|k: nat| b == #[trigger] (k * g);
        let k2 = choose|k: nat| (a % b) == #[trigger] (k * g);
        lemma_fundamental_div_mod(a as int, b as int);
        lemma_mod_bound(a as int, b as int);
        assert(a as int == (b as int) * (a as int / b as int) + (a as int % b as int));
        let q = a as int / b as int;
        lemma_div_pos_is_pos(a as int, b as int);
        assert((a % b) as int == a as int % b as int);
        assert(a as int == q * (k1 * g) + k2 * g) by (nonlinear_arith)
            requires
                a as int == (b as int) * q + ((a % b) as int),
                b as int == k1 * g,
                (a % b) as int == k2 * g,
        ;
        assert(q * (k1 * g) + k2 * g == (q * k1 + k2) * g) by (nonlinear_arith);
        assert(q * k1 + k2 >= 0) by (nonlinear_arith)
            requires q >= 0, k1 >= 0, k2 >= 0;
        assert(a == ((q * k1 + k2) as nat) * g);
    }
}

/// The gcd is zero only when both arguments are zero.
pub proof fn lemma_gcd_pos(a: nat, b: nat)
    ensures
        gcd_nat(a, b) == 0 <==> (a == 0 && b == 0),
    decreases b,
{
    if b == 0 {
    } else {
        lemma_gcd_pos(b, a % b);
    }
}

/// Anything that divides both `a` and `b` divides their gcd; stated in the
/// linear-combination form actually needed: the Bezout identity for the gcd.
pub proof fn lemma_egcd_correct(a: int, b: int)
    requires
        a >= 0,
        b >= 0,
    ensures
        egcd(a, b).0 == gcd_nat(a as nat, b as nat),
        a * egcd(a, b).1 + b * egcd(a, b).2 == egcd(a, b).0,
    decreases b,
{
    if b <= 0 {
        assert(a * 1 + b * 0 == a) by (nonlinear_arith);
    } else {
        lemma_mod_bound(a, b);
        lemma_egcd_correct(b, a % b);
        let (g, u1, v1) = egcd(b, a % b);
        lemma_fundamental_div_mod(a, b);
        let q = a / b;
        let r = a % b;
        assert(b * u1 + r * v1 == g);
        assert(a == b * q + r);
        assert(a * v1 + b * (u1 - q * v1) == b * u1 + r * v1) by (nonlinear_arith)
            requires a == b * q + r;
        assert((a % b) as nat == (a as nat) % (b as nat));
    }
}

/// Bounds on the Bezout coefficients, needed to run the algorithm in i64.
pub proof fn lemma_egcd_bounds(a: int, b: int)
    requires
        a >= 0,
        b >= 0,
    ensures
        -(if b >= 1 { b } else { 1 }) <= egcd(a, b).1 <= (if b >= 1 { b } else { 1 }),
        -(if a >= 1 { a } else { 1 }) <= egcd(a, b).2 <= (if a >= 1 { a } else { 1 }),
    decreases b,
{
    if b <= 0 {
    } else {
        lemma_mod_bound(a, b);
        lemma_egcd_bounds(b, a % b);
        let (g, u1, v1) = egcd(b, a % b);
        lemma_fundamental_div_mod(a, b);
        let q = a / b;
        let r = a % b;
        lemma_div_pos_is_pos(a, b);
        assert(a == q * b + r) by (nonlinear_arith)
            requires a == b * q + r;
        let u = egcd(a, b).1;
        let v = egcd(a, b).2;
        assert(u == v1 && v == u1 - q * v1);
        if r == 0 {
            assert(egcd(b as int, 0) == (b as int, 1int, 0int));
            assert(u1 == 1 && v1 == 0);
            assert(v == 1 && u == 0) by (nonlinear_arith)
                requires u == v1, v == u1 - q * v1, u1 == 1, v1 == 0;
        } else {
            // |v| = |u1 - q*v1| <= r + q*b == a, using |u1| <= r and |v1| <= b.
            assert(-b <= v1 <= b);
            assert(-r <= u1 <= r);
            assert(0 <= q * b <= a - r) by (nonlinear_arith)
                requires a == q * b + r, q >= 0, b >= 1, r >= 0;
            assert(-(q * b) <= q * v1 <= q * b) by (nonlinear_arith)
                requires q >= 0, -b <= v1 <= b;
            assert(a >= 1);
            assert(-a <= v <= a) by (nonlinear_arith)
                requires
                    v == u1 - q * v1,
                    -r <= u1 <= r,
                    -(q * b) <= q * v1 <= q * b,
                    0 <= q * b <= a - r,
                    r >= 1,
            ;
        }
    }
}

/// A linear combination equal to 1 forces the gcd to be 1.
pub proof fn lemma_bezout_gcd_one(c: nat, n: nat, x: int, y: int)
    requires
        n >= 1,
        c * x + n * y == 1,
    ensures
        gcd_nat(c, n) == 1,
{
    let g = gcd_nat(c, n);
    lemma_gcd_divides(c, n);
    lemma_gcd_pos(c, n);
    let k1 = choose|k: nat| c == #[trigger] (k * g);
    let k2 = choose|k: nat| n == #[trigger] (k * g);
    assert(g >= 1);
    assert((k1 * x + k2 * y) * g == 1) by (nonlinear_arith)
        requires
            c == k1 * g,
            n == k2 * g,
            c * x + n * y == 1,
    ;
    assert(g == 1) by (nonlinear_arith)
        requires (k1 * x + k2 * y) * (g as int) == 1, g >= 1;
}

/// The gcd of 1 with anything is 1, in the Bezout form used above.
pub proof fn lemma_gcd_one_bezout(c: nat, n: nat)
    requires
        n >= 1,
        gcd_nat(c, n) == 1,
    ensures
        c * egcd(c as int, n as int).1 + n * egcd(c as int, n as int).2 == 1,
{
    lemma_egcd_correct(c as int, n as int);
}

/// Replacing c by c % n preserves a Bezout combination equal to 1.
pub proof fn lemma_bezout_mod(c: nat, n: nat, x: int, y: int)
    requires
        n >= 1,
        c * x + n * y == 1,
    ensures
        (c % n) * x + n * (y + (c as int / n as int) * x) == 1,
{
    lemma_fundamental_div_mod(c as int, n as int);
    let q = c as int / n as int;
    assert((c % n) as int == c as int - n as int * q);
    assert((c as int - n as int * q) * x + n * (y + q * x) == c * x + n * y) by (nonlinear_arith);
}

/// The product of two residues coprime to n is coprime to n, after
/// reduction mod n.
pub proof fn lemma_coprime_mul(a: nat, b: nat, n: nat)
    requires
        n >= 1,
        gcd_nat(a, n) == 1,
        gcd_nat(b, n) == 1,
    ensures
        gcd_nat((a * b) % n, n) == 1,
{
    let xa = egcd(a as int, n as int).1;
    let ya = egcd(a as int, n as int).2;
    let xb = egcd(b as int, n as int).1;
    let yb = egcd(b as int, n as int).2;
    lemma_gcd_one_bezout(a, n);
    lemma_gcd_one_bezout(b, n);
    let ni = n as int;
    // (a xa)(b xb) == (1 - n ya)(1 - n yb), so a b (xa xb) + n k == 1.
    let k = yb + ya - ni * ya * yb;
    assert((a * b) * (xa * xb) + ni * k == 1) by (nonlinear_arith)
        requires
            a * xa + ni * ya == 1,
            b * xb + ni * yb == 1,
            k == yb + ya - ni * ya * yb,
    ;
    lemma_bezout_mod(a * b, n, xa * xb, k);
    lemma_bezout_gcd_one((a * b) % n, n, xa * xb, k + ((a * b) as int / ni) * (xa * xb));
}

} // verus!

verus! {

/// Checks whether the given mapping is a valid permutation of 0..n.
pub fn is_mapping_valid(mapping: &Vec<usize>) -> (r: bool)
    ensures
        r == is_valid_mapping(mapping@),
{
    let n = mapping.len();
    let mut seen: Vec<bool> = Vec::new();
    let mut k: usize = 0;
    while k < n
        invariant
            seen.len() == k <= n,
            forall|i: int| 0 <= i < k ==> !seen[i],
        decreases n - k,
    {
        seen.push(false);
        k = k + 1;
    }

    let mut idx: usize = 0;
    while idx < n
        invariant
            idx <= n,
            seen.len() == n == mapping.len(),
            forall|i: int| 0 <= i < idx ==> mapping@[i] < n,
            forall|i: int, j: int| 0 <= i < j < idx ==> mapping@[i] != mapping@[j],
            forall|v: int| 0 <= v < n ==>
                (seen[v] <==> exists|i: int| 0 <= i < idx && mapping@[i] == v),
        decreases n - idx,
    {
        let val = mapping[idx];
        if val >= n {
            assert(!is_valid_mapping(mapping@)) by {
                assert(mapping@[idx as int] >= mapping@.len());
            }
            return false;
        }
        if seen[val] {
            assert(!is_valid_mapping(mapping@)) by {
                let j = choose|i: int| 0 <= i < idx && mapping@[i] == val;
                assert(mapping@[j] == mapping@[idx as int]);
            }
            return false;
        }
        seen.set(val, true);
        idx = idx + 1;
    }
    true
}

/// Computes the greatest common divisor by the Euclidean algorithm.
pub fn gcd(a: usize, b: usize) -> (r: usize)
    ensures
        r as nat == gcd_nat(a as nat, b as nat),
    decreases b,
{
    if b == 0 {
        a
    } else {
        gcd(b, a % b)
    }
}

/// Computes the greatest common divisor over u64 operands.
pub(crate) fn gcd_u64(a: u64, b: u64) -> (r: u64)
    ensures
        r as nat == gcd_nat(a as nat, b as nat),
    decreases b,
{
    if b == 0 {
        a
    } else {
        gcd_u64(b, a % b)
    }
}

/// Computes the least common multiple through the gcd.
pub fn lcm(a: usize, b: usize) -> (r: usize)
    requires
        lcm_nat(a as nat, b as nat) <= usize::MAX,
    ensures
        r as nat == lcm_nat(a as nat, b as nat),
{
    if a == 0 || b == 0 {
        0
    } else {
        let g = gcd(a, b);
        proof {
            lemma_gcd_pos(a as nat, b as nat);
            lemma_gcd_divides(a as nat, b as nat);
            let gi = g as int;
            let k = choose|k: nat| a as nat == #[trigger] (k * (g as nat));
            let ki = k as int;
            assert(a as int == ki * gi);
            assert(a as int == gi * ki) by (nonlinear_arith)
                requires a as int == ki * gi;
            lemma_div_multiples_vanish(ki, gi);
            assert(a as int / gi == ki);
            assert(a as int * b as int == gi * (ki * (b as int))) by (nonlinear_arith)
                requires a as int == gi * ki;
            lemma_div_multiples_vanish(ki * (b as int), gi);
            assert((a as int * b as int) / gi == ki * (b as int));
            assert((a as nat * b as nat) / (g as nat) == k * (b as nat));
            assert((a as int / gi) * (b as int) == ki * (b as int));
        }
        (a / g) * b
    }
}

/// Performs the extended Euclidean algorithm, returning (g, u, v) that
/// satisfy Bezout's identity a*u + b*v == g.
pub fn extended_gcd(a: i64, b: i64) -> (r: (i64, i64, i64))
    requires
        a >= 0,
        b >= 0,
    ensures
        (r.0 as int, r.1 as int, r.2 as int) == egcd(a as int, b as int),
        r.0 as int == gcd_nat(a as nat, b as nat),
        a * r.1 + b * r.2 == r.0,
    decreases b,
{
    proof {
        lemma_egcd_correct(a as int, b as int);
        lemma_egcd_bounds(a as int, b as int);
    }
    if b == 0 {
        (a, 1, 0)
    } else {
        let (g, u1, v1) = extended_gcd(b, a % b);
        proof {
            lemma_egcd_bounds(b as int, (a % b) as int);
            lemma_fundamental_div_mod(a as int, b as int);
            lemma_div_pos_is_pos(a as int, b as int);
            assert(0 <= (a / b) as int * (v1 as int) <= a as int
                || 0 <= -((a / b) as int * (v1 as int)) <= a as int) by (nonlinear_arith)
                requires
                    (a / b) as int >= 0,
                    -(b as int) <= v1 as int <= b as int,
                    b as int >= 1,
                    (a / b) as int * (b as int) <= a as int,
            ;
            assert((a / b) as int * (b as int) <= a as int) by (nonlinear_arith)
                requires
                    a as int == (a / b) as int * (b as int) + (a % b) as int,
                    (a % b) as int >= 0,
            ;
        }
        let u = v1;
        let v = u1 - (a / b) * v1;
        (g, u, v)
    }
}

/// Finds the modular multiplicative inverse of `a` modulo `n`: Some when
/// gcd(a, n) == 1, None otherwise.
pub fn modular_inverse(a: i64, n: i64) -> (r: Option<i64>)
    requires
        a >= 0,
        n >= 1,
    ensures
        r is Some <==> gcd_nat(a as nat, n as nat) == 1,
        r matches Some(x) ==> {
            &&& x as int == spec_mod_inv(a as int, n as int)
            &&& 0 <= x < n
            &&& (a * x) % (n as int) == 1int % (n as int)
        },
{
    let (g, u, _v) = extended_gcd(a, n);
    if g != 1 {
        None
    } else {
        proof {
            lemma_egcd_correct(a as int, n as int);
            lemma_egcd_bounds(a as int, n as int);
        }
        let um = if u >= 0 {
            u % n
        } else {
            u + n
        };
        proof {
            let ui = u as int;
            let ni = n as int;
            assert(-ni <= ui <= ni);
            if u < 0 {
                lemma_mod_multiples_vanish(1, ui, ni);
                lemma_small_mod((ui + ni) as nat, ni as nat);
                assert(um as int == ui % ni);
            } else {
                assert(um as int == ui % ni);
            }
            lemma_mod_bound(ui, ni);
            assert(0 <= um < n);
            // spec_mod_inv folds the extra "+ n" away.
            assert(spec_mod_inv(a as int, ni) == ui % ni) by {
                lemma_mod_bound(ui, ni);
                lemma_mod_multiples_vanish(1, ui % ni, ni);
                lemma_small_mod((ui % ni) as nat, ni as nat);
            }
            // a * um === a * u === 1 (mod n).
            assert(a as int * ui + ni * (egcd(a as int, ni).2) == egcd(a as int, ni).0);
            assert((a as int * (um as int)) % ni == (a as int * ui) % ni) by {
                lemma_mul_mod_noop_right(a as int, ui, ni);
                lemma_mul_mod_noop_right(a as int, um as int, ni);
            }
            assert((a as int * ui) % ni == 1int % ni) by {
                let v2 = egcd(a as int, ni).2;
                assert(a as int * ui == 1 - ni * v2);
                lemma_mod_multiples_vanish(-v2, 1, ni);
                assert(1 + (-v2) * ni == 1 - ni * v2) by (nonlinear_arith);
            }
        }
        Some(um)
    }
}

/// Performs the prime factorization of `n` by trial division; the primes in
/// the result come in strictly increasing order.
pub fn prime_factorization(n: u64) -> (r: Vec<(u64, u32)>)
    ensures
        n <= 1 ==> r@ =~= Seq::<(u64, u32)>::empty(),
        factors_product(r@) == (if n <= 1 { 1nat } else { n as nat }),
        forall|i: int| 0 <= i < r@.len() ==> is_prime(#[trigger] r@[i].0 as nat) && r@[i].1 >= 1,
        forall|i: int, j: int| 0 <= i < j < r@.len() ==> r@[i].0 < r@[j].0,
{
    let mut factors: Vec<(u64, u32)> = Vec::new();
    if n <= 1 {
        return factors;
    }

    let mut rem: u64 = n;
    let mut d: u64 = 2;
    proof {
        assert(factors@ =~= Seq::<(u64, u32)>::empty());
        assert(factors_product(factors@) == 1);
    }
    while d <= rem / d
        invariant
            2 <= d <= n + 1,
            1 <= rem <= n,
            n >= 2,
            factors_product(factors@) * rem == n,
            forall|c: nat| 2 <= c < d ==> !divides(c, rem as nat),
            forall|i: int| 0 <= i < factors@.len()
                ==> is_prime(#[trigger] factors@[i].0 as nat) && factors@[i].1 >= 1
                    && factors@[i].0 < d,
            forall|i: int, j: int| 0 <= i < j < factors@.len() ==> factors@[i].0 < factors@[j].0,
        decreases n + 1 - d,
    {
        proof {
            lemma_fundamental_div_mod(rem as int, d as int);
            lemma_mod_bound(rem as int, d as int);
            assert(d * d <= n) by (nonlinear_arith)
                requires
                    d as int <= (rem / d) as int,
                    rem as int == (rem / d) as int * d + (rem % d) as int,
                    (rem % d) as int >= 0,
                    d >= 2,
                    rem <= n,
            ;
        }
        if rem % d == 0 {
            let ghost rem0 = rem as nat;
            let mut count: u32 = 1;
            proof {
                lemma_divide_step(d as nat, rem as nat);
                assert(pow_nat(d as nat, 1) == d as nat) by {
                    reveal_with_fuel(pow_nat, 3);
                }
                assert(pow_nat(d as nat, 1) * ((rem / d) as nat) == rem0) by (nonlinear_arith)
                    requires
                        pow_nat(d as nat, 1) == d as nat,
                        (rem / d) as nat * (d as nat) == rem0,
                ;
            }
            rem = rem / d;
            while rem % d == 0
                invariant
                    2 <= d,
                    1 <= rem,
                    1 <= count <= 64,
                    pow_nat(d as nat, count as nat) * rem == rem0,
                    rem0 <= u64::MAX,
                decreases rem,
            {
                proof {
                    lemma_pow_count_bound(d as nat, count as nat, rem as nat, rem0);
                    lemma_divide_step(d as nat, rem as nat);
                    assert(pow_nat(d as nat, (count + 1) as nat)
                        == d as nat * pow_nat(d as nat, count as nat)) by {
                        lemma_pow_unfold_front(d as nat, (count + 1) as nat);
                    }
                    assert(pow_nat(d as nat, (count + 1) as nat) * ((rem / d) as nat)
                        == pow_nat(d as nat, count as nat) * rem as nat) by (nonlinear_arith)
                        requires
                            pow_nat(d as nat, (count + 1) as nat)
                                == d as nat * pow_nat(d as nat, count as nat),
                            rem as nat == (rem / d) as nat * d as nat,
                    ;
                }
                rem = rem / d;
                count = count + 1;
            }
            proof {
                lemma_pow_mono_count(d as nat, 0, count as nat);
                assert(divides(d as nat, rem0)) by {
                    lemma_pow_unfold_front(d as nat, count as nat);
                    let w = pow_nat(d as nat, (count - 1) as nat) * rem as nat;
                    assert(rem0 == w * d as nat) by (nonlinear_arith)
                        requires
                            pow_nat(d as nat, count as nat) * rem as nat == rem0,
                            pow_nat(d as nat, count as nat)
                                == d as nat * pow_nat(d as nat, (count - 1) as nat),
                            w == pow_nat(d as nat, (count - 1) as nat) * rem as nat,
                    ;
                }
                lemma_trial_division_prime(d as nat, rem0);
                lemma_no_small_divisors_quotient(d as nat, rem0, rem as nat,
                    pow_nat(d as nat, count as nat));
                assert(rem <= rem0) by (nonlinear_arith)
                    requires
                        pow_nat(d as nat, count as nat) * rem as nat == rem0,
                        pow_nat(d as nat, count as nat) >= 1,
                        rem >= 1,
                ;
            }
            let ghost old_factors = factors@;
            factors.push((d, count));
            proof {
                assert(factors@.drop_last() =~= old_factors);
                assert(factors@.last() == (d, count));
                assert(factors_product(factors@)
                    == factors_product(old_factors) * pow_nat(d as nat, count as nat));
                assert(factors_product(factors@) * rem as nat == n as nat) by (nonlinear_arith)
                    requires
                        factors_product(factors@)
                            == factors_product(old_factors) * pow_nat(d as nat, count as nat),
                        pow_nat(d as nat, count as nat) * rem as nat == rem0,
                        factors_product(old_factors) * rem0 == n as nat,
                ;
            }
        }
        proof {
            lemma_next_d_no_divisor(d as nat, rem as nat);
            assert(d + 1 <= n + 1) by (nonlinear_arith)
                requires d >= 2, d as int * d as int <= n as int;
            assert(d < 0xffff_ffff_ffff_ffffu64) by (nonlinear_arith)
                requires 2 <= d, d as int * d as int <= n as int, n <= u64::MAX;
        }
        d = d + 1;
    }
    if rem > 1 {
        proof {
            lemma_large_remainder_prime(d as nat, rem as nat);
            assert(rem >= d) by {
                if rem < d {
                    assert(divides(rem as nat, rem as nat)) by {
                        assert(rem as nat == 1 * rem as nat) by (nonlinear_arith);
                    }
                }
            }
        }
        let ghost old_factors = factors@;
        factors.push((rem, 1));
        proof {
            assert(factors@.drop_last() =~= old_factors);
            assert(pow_nat(rem as nat, 1) == rem as nat * pow_nat(rem as nat, 0));
        }
    }
    factors
}

} // verus!

verus! {

// ---- helper lemmas for prime factorization ----

/// If d^count * rem == rem0 <= u64::MAX with d >= 2, then count stays small.
proof fn lemma_pow_count_bound(d: nat, count: nat, rem: nat, rem0: nat)
    requires
        d >= 2,
        rem >= 1,
        pow_nat(d, count) * rem == rem0,
        rem0 <= u64::MAX,
    ensures
        count < 64,
    decreases count,
{
    if count >= 64 {
        lemma_pow_ge_2_64(d, count);
        assert(pow_nat(d, count) * rem >= pow_nat(d, count) * 1) by (nonlinear_arith)
            requires rem >= 1, pow_nat(d, count) >= 0;
    }
}

/// d^count >= 2^64 when d >= 2 and count >= 64.
proof fn lemma_pow_ge_2_64(d: nat, count: nat)
    requires
        d >= 2,
        count >= 64,
    ensures
        pow_nat(d, count) > u64::MAX,
{
    lemma_pow_mono_count(d, 64, count);
    lemma_pow_2_64();
    assert(pow_nat(d, 64) >= pow_nat(2, 64)) by { lemma_pow_mono_base(2, d, 64); }
}

pub proof fn lemma_pow_mono_count(d: nat, e1: nat, e2: nat)
    requires
        d >= 1,
        e1 <= e2,
    ensures
        pow_nat(d, e1) <= pow_nat(d, e2),
        pow_nat(d, e1) >= 1,
    decreases e2,
{
    if e2 == 0 {
    } else if e1 == e2 {
        lemma_pow_mono_count(d, (e1 - 1) as nat, (e2 - 1) as nat);
        assert(pow_nat(d, e1) == d * pow_nat(d, (e1 - 1) as nat));
        assert(d * pow_nat(d, (e1 - 1) as nat) >= 1) by (nonlinear_arith)
            requires d >= 1, pow_nat(d, (e1 - 1) as nat) >= 1;
    } else {
        lemma_pow_mono_count(d, e1, (e2 - 1) as nat);
        assert(pow_nat(d, e2) == d * pow_nat(d, (e2 - 1) as nat));
        assert(d * pow_nat(d, (e2 - 1) as nat) >= 1 * pow_nat(d, (e2 - 1) as nat))
            by (nonlinear_arith)
            requires d >= 1, pow_nat(d, (e2 - 1) as nat) >= 1;
    }
}

proof fn lemma_pow_mono_base(b1: nat, b2: nat, e: nat)
    requires
        1 <= b1 <= b2,
    ensures
        pow_nat(b1, e) <= pow_nat(b2, e),
    decreases e,
{
    if e > 0 {
        lemma_pow_mono_base(b1, b2, (e - 1) as nat);
        assert(b1 * pow_nat(b1, (e - 1) as nat) <= b2 * pow_nat(b2, (e - 1) as nat))
            by (nonlinear_arith)
            requires
                1 <= b1 <= b2,
                0 <= pow_nat(b1, (e - 1) as nat) <= pow_nat(b2, (e - 1) as nat),
        ;
    }
}

proof fn lemma_pow_nat_is_pow2(e: nat)
    ensures
        pow_nat(2, e) == vstd::arithmetic::power2::pow2(e),
    decreases e,
{
    reveal(vstd::arithmetic::power::pow);
    vstd::arithmetic::power::lemma_pow_positive(2, e);
    if e > 0 {
        lemma_pow_nat_is_pow2((e - 1) as nat);
        vstd::arithmetic::power::lemma_pow_positive(2, (e - 1) as nat);
    }
}

proof fn lemma_pow_2_64()
    ensures
        pow_nat(2, 64) > u64::MAX,
{
    lemma_pow_nat_is_pow2(64);
    vstd::arithmetic::power2::lemma2_to64_rest();
}

pub proof fn lemma_pow_unfold_front(b: nat, e: nat)
    requires
        e >= 1,
    ensures
        pow_nat(b, e) == b * pow_nat(b, (e - 1) as nat),
{
}

/// One step of dividing out a known factor.
proof fn lemma_divide_step(d: nat, rem: nat)
    requires
        d >= 2,
        rem >= 1,
        rem % d == 0,
    ensures
        rem / d >= 1,
        (rem / d) * d == rem,
        rem / d < rem,
{
    lemma_fundamental_div_mod(rem as int, d as int);
    assert(rem as int == d as int * (rem as int / d as int));
    lemma_div_pos_is_pos(rem as int, d as int);
    assert(rem / d >= 1 && (rem / d) * d == rem && rem / d < rem) by (nonlinear_arith)
        requires
            rem as int == d as int * (rem as int / d as int),
            rem as int / d as int >= 0,
            (rem / d) as int == rem as int / d as int,
            rem >= 1,
            d >= 2,
    ;
}

/// A power of a positive base is positive.
pub proof fn lemma_pow_pos(b: nat, e: nat)
    requires
        b >= 1,
    ensures
        pow_nat(b, e) >= 1,
    decreases e,
{
    if e > 0 {
        lemma_pow_pos(b, (e - 1) as nat);
        assert(b * pow_nat(b, (e - 1) as nat) >= 1) by (nonlinear_arith)
            requires b >= 1, pow_nat(b, (e - 1) as nat) >= 1;
    }
}

/// Divisibility is transitive.
proof fn lemma_divides_trans(a: nat, b: nat, c: nat)
    requires
        divides(a, b),
        divides(b, c),
    ensures
        divides(a, c),
{
    let k1 = choose|k: nat| b == #[trigger] (k * a);
    let k2 = choose|k: nat| c == #[trigger] (k * b);
    assert(c == (k2 * k1) * a) by (nonlinear_arith)
        requires b == k1 * a, c == k2 * b;
}

/// When d divides rem0 and rem0 has no divisor in [2, d), d is prime.
proof fn lemma_trial_division_prime(d: nat, rem0: nat)
    requires
        d >= 2,
        rem0 >= 1,
        divides(d, rem0),
        forall|c: nat| 2 <= c < d ==> !divides(c, rem0),
    ensures
        is_prime(d),
{
    assert forall|c: nat| 1 < c < d implies !divides(c, d) by {
        if divides(c, d) {
            lemma_divides_trans(c, d, rem0);
        }
    }
}

/// Dividing out a factor keeps "no small divisors".
proof fn lemma_no_small_divisors_quotient(d: nat, rem0: nat, rem: nat, p: nat)
    requires
        d >= 2,
        rem >= 1,
        p * rem == rem0,
        p >= 1,
        forall|c: nat| 2 <= c < d ==> !divides(c, rem0),
    ensures
        forall|c: nat| 2 <= c < d ==> !divides(c, rem as nat),
{
    assert forall|c: nat| 2 <= c < d implies !divides(c, rem) by {
        if divides(c, rem) {
            let k = choose|k: nat| rem == #[trigger] (k * c);
            assert(rem0 == (p * k) * c) by (nonlinear_arith)
                requires rem == k * c, p * rem == rem0;
            assert(divides(c, rem0));
        }
    }
}

/// After the division loop at d, d no longer divides rem, so the bound on
/// small divisors extends to d + 1.
proof fn lemma_next_d_no_divisor(d: nat, rem: nat)
    requires
        d >= 2,
        rem >= 1,
        rem % d != 0,
        forall|c: nat| 2 <= c < d ==> !divides(c, rem),
    ensures
        forall|c: nat| 2 <= c < d + 1 ==> !divides(c, rem),
{
    assert forall|c: nat| 2 <= c < d + 1 implies !divides(c, rem) by {
        if c == d && divides(d, rem) {
            let k = choose|k: nat| rem == #[trigger] (k * d);
            lemma_mod_multiples_basic(k as int, d as int);
            assert(rem as int == k as int * d as int);
        }
    }
}

/// When rem > 1 has no divisor below d and d * d > rem, rem is prime.
proof fn lemma_large_remainder_prime(d: nat, rem: nat)
    requires
        d >= 2,
        rem >= 2,
        d > rem / d,
        forall|c: nat| 2 <= c < d ==> !divides(c, rem),
    ensures
        is_prime(rem),
{
    assert(d * d > rem) by {
        lemma_fundamental_div_mod(rem as int, d as int);
        assert(rem as int == (rem / d) as int * d as int + (rem % d) as int);
        assert((rem / d) as int * d as int <= (d as int - 1) * d as int) by (nonlinear_arith)
            requires (rem / d) as int <= d as int - 1, d as int >= 2;
        lemma_mod_bound(rem as int, d as int);
        assert((d as int - 1) * d as int + d as int == d as int * d as int) by (nonlinear_arith);
    }
    assert forall|c: nat| 1 < c < rem implies !divides(c, rem) by {
        if divides(c, rem) {
            let k = choose|k: nat| rem == #[trigger] (k * c);
            if c < d {
            } else {
                // k is also a divisor, and k < d.
                assert(k >= 2) by (nonlinear_arith)
                    requires rem == k * c, c < rem, c >= 2;
                assert(k < d) by (nonlinear_arith)
                    requires rem == k * c, c >= d, d * d > rem, d >= 2, k >= 1;
                assert(divides(k, rem)) by {
                    assert(rem == c * k) by (nonlinear_arith)
                        requires rem == k * c;
                }
            }
        }
    }
}

} // verus!
