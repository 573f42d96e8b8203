//! Residue classes modulo a fixed modulus, with exact modular arithmetic:
//! construction from an arbitrary signed integer, addition, negation,
//! multiplication, and the multiplicative inverse by the extended Euclidean
//! algorithm.

use vstd::prelude::*;
use vstd::arithmetic::div_mod::{
    lemma_add_mod_noop, lemma_fundamental_div_mod, lemma_fundamental_div_mod_converse_mod,
    lemma_mod_add_multiples_vanish, lemma_mod_equivalence, lemma_mod_multiples_vanish,
    lemma_mod_self_0, lemma_mod_twice, lemma_mul_mod_noop_general, lemma_mul_mod_noop_left,
    lemma_mul_mod_noop_right, lemma_small_mod, lemma_sub_mod_noop, lemma_sub_mod_noop_right,
};
use vstd::arithmetic::mul::{
    lemma_mul_is_associative, lemma_mul_is_commutative, lemma_mul_is_distributive_add,
    lemma_mul_is_distributive_sub, lemma_mul_is_distributive_sub_other_way, lemma_mul_nonnegative,
    lemma_mul_upper_bound,
};

verus! {

/// Largest modulus accepted. It keeps every product of two residues below
/// `u64::MAX`, and the quotient-times-coefficient products of the inverse
/// algorithm as well.
pub const MOD_MAX: u64 = 0x7FFF_FFFF;

/// A residue class modulo `p`, stored as its canonical representative
/// `x` in `[0, p)`.
///
/// The modulus travels with the element; two elements may only be combined
/// when their moduli agree, which every operation requires.
#[derive(Debug, Clone, Copy, PartialEq, Eq, Structural)]
pub struct F {
    pub p: u64,
    pub x: u64,
}

/// The sum of two residues modulo `p`.
pub open spec fn fadd(p: int, a: int, b: int) -> int {
    (a + b) % p
}

/// The additive inverse of a residue modulo `p`; `fneg(p, 0) == 0`.
pub open spec fn fneg(p: int, a: int) -> int {
    (p - a) % p
}

/// The product of two residues modulo `p`.
pub open spec fn fmul(p: int, a: int, b: int) -> int {
    (a * b) % p
}

/// The difference of two residues, expressed through negation, exactly as the
/// executable code forms it.
pub open spec fn fsub(p: int, a: int, b: int) -> int {
    fadd(p, a, fneg(p, b))
}

/// Greatest common divisor by the Euclidean recursion; `gcd(a, 0) == a`.
pub open spec fn gcd(a: nat, b: nat) -> nat
    decreases b,
{
    if b == 0 {
        a
    } else {
        gcd(b, a % b)
    }
}

/// Primality: no residue strictly between one and `p` divides `p`.
pub open spec fn is_prime(p: nat) -> bool {
    2 <= p && forall|d: nat| 1 < d < p ==> #[trigger] (p % d) != 0
}

/// The greatest common divisor of two numbers, not both zero, is positive
/// and divides both.
pub proof fn lemma_gcd_divides(a: nat, b: nat)
    requires
        a > 0 || b > 0,
    ensures
        gcd(a, b) > 0,
        (a as int) % (gcd(a, b) as int) == 0,
        (b as int) % (gcd(a, b) as int) == 0,
    decreases b,
{
    if b == 0 {
        lemma_mod_self_0(a as int);
        lemma_small_mod(0nat, a as nat);
    } else {
        let r = a % b;
        lemma_gcd_divides(b, r);
        let g = gcd(b, r) as int;
        let ai = a as int;
        let bi = b as int;
        let ri = r as int;
        lemma_fundamental_div_mod(ai, bi);
        lemma_fundamental_div_mod(bi, g);
        lemma_fundamental_div_mod(ri, g);
        let q = ai / bi;
        let kb = bi / g;
        let kr = ri / g;
        assert(ai == g * (kb * q + kr)) by {
            assert(bi * q == g * (kb * q)) by {
                lemma_mul_is_associative(g, kb, q);
            }
            assert(g * (kb * q + kr) == g * (kb * q) + g * kr) by {
                lemma_mul_is_distributive_add(g, kb * q, kr);
            }
        }
        lemma_mod_multiples_vanish(kb * q + kr, 0, g);
        lemma_small_mod(0nat, g as nat);
    }
}

/// Over a prime modulus every nonzero reduced residue is coprime to the
/// modulus, so the multiplicative inverse is defined exactly on the nonzero
/// residues.
pub proof fn lemma_prime_nonzero_coprime(p: nat, x: nat)
    requires
        is_prime(p),
        0 < x < p,
    ensures
        gcd(x, p) == 1,
{
    let g = gcd(x, p);
    lemma_gcd_divides(x, p);
    if g > x {
        lemma_small_mod(x, g);
    }
    if g > 1 {
        assert(p % g != 0);
        assert(false);
    }
}

impl F {
    /// Well-formedness: the modulus is in range and the representative is
    /// reduced into `[0, p)`.
    pub open spec fn valid(self) -> bool {
        2 <= self.p <= MOD_MAX && self.x < self.p
    }

    /// Reduce an arbitrary signed integer modulo `p`, correcting a negative
    /// remainder so that the representative lands in `[0, p)`.
    pub fn new(p: u64, v: i64) -> (r: F)
        requires
            2 <= p <= MOD_MAX,
        ensures
            r.p == p,
            r.valid(),
            r.x == (v as int) % (p as int),
    {
        if v >= 0 {
            let x = (v as u64) % p;
            F { p, x }
        } else {
            // Magnitude of `v`, computed without overflowing at `i64::MIN`.
            let m = ((-(v + 1)) as u64) + 1;
            let rem = m % p;
            let x = if rem == 0 {
                0
            } else {
                p - rem
            };
            proof {
                let pi = p as int;
                let mi = m as int;
                assert(mi == -(v as int));
                lemma_fundamental_div_mod(mi, pi);
                let q = mi / pi;
                assert(mi == pi * q + rem);
                if rem == 0 {
                    assert(v as int == (-q) * pi + 0) by {
                        assert((-q) * pi == -(pi * q)) by {
                            lemma_mul_is_commutative(pi, -q);
                            lemma_mul_is_distributive_sub(pi, 0, q);
                        }
                    }
                    lemma_fundamental_div_mod_converse_mod(v as int, pi, -q, 0);
                } else {
                    assert(v as int == (-q - 1) * pi + (pi - rem)) by {
                        assert((-q - 1) * pi == -(pi * q) - pi) by {
                            lemma_mul_is_commutative(pi, -q - 1);
                            lemma_mul_is_distributive_sub(pi, -q, 1);
                            lemma_mul_is_distributive_sub(pi, 0, q);
                        }
                    }
                    lemma_fundamental_div_mod_converse_mod(v as int, pi, -q - 1, pi - rem);
                }
            }
            F { p, x }
        }
    }

    /// Modular addition.
    pub fn add(self, rhs: F) -> (r: F)
        requires
            self.valid(),
            rhs.valid(),
            self.p == rhs.p,
        ensures
            r.p == self.p,
            r.valid(),
            r.x == fadd(self.p as int, self.x as int, rhs.x as int),
    {
        F { p: self.p, x: (self.x + rhs.x) % self.p }
    }

    /// Modular negation: `(p - x) % p`, so zero stays zero.
    pub fn neg(self) -> (r: F)
        requires
            self.valid(),
        ensures
            r.p == self.p,
            r.valid(),
            r.x == fneg(self.p as int, self.x as int),
    {
        F { p: self.p, x: (self.p - self.x) % self.p }
    }

    /// Modular multiplication.
    pub fn mul(self, rhs: F) -> (r: F)
        requires
            self.valid(),
            rhs.valid(),
            self.p == rhs.p,
        ensures
            r.p == self.p,
            r.valid(),
            r.x == fmul(self.p as int, self.x as int, rhs.x as int),
    {
        proof {
            lemma_mul_upper_bound(self.x as int, MOD_MAX as int, rhs.x as int, MOD_MAX as int);
            lemma_mul_nonnegative(self.x as int, rhs.x as int);
        }
        F { p: self.p, x: (self.x * rhs.x) % self.p }
    }

    /// Multiplicative inverse by the extended Euclidean algorithm on
    /// `(x, p)`, defined exactly when `x` is coprime to the modulus — for a
    /// prime modulus, exactly when `x != 0`. The Bezout coefficient is kept
    /// reduced into `[0, p)` throughout, which changes nothing modulo `p`.
    pub fn inv(&self) -> (r: F)
        requires
            self.valid(),
            gcd(self.x as nat, self.p as nat) == 1,
        ensures
            r.p == self.p,
            r.valid(),
            fmul(self.p as int, self.x as int, r.x as int) == 1,
    {
        let p = self.p;
        let xi = self.x;
        let mut r: u64 = xi;
        let mut u: u64 = 1;
        let mut r2: u64 = p;
        let mut u2: u64 = 0;
        proof {
            let pi = p as int;
            lemma_small_mod(xi as nat, p as nat);
            lemma_mod_self_0(pi);
            lemma_small_mod(1nat, p as nat);
            lemma_small_mod(0nat, p as nat);
        }
        while r2 != 0
            invariant
                2 <= p <= MOD_MAX,
                xi < p,
                r <= p,
                r2 <= p,
                u < p,
                u2 < p,
                (r as int) % (p as int) == ((u as int) * (xi as int)) % (p as int),
                (r2 as int) % (p as int) == ((u2 as int) * (xi as int)) % (p as int),
                gcd(r as nat, r2 as nat) == gcd(xi as nat, p as nat),
            decreases r2,
        {
            let q = r / r2;
            proof {
                lemma_mul_upper_bound(q as int, MOD_MAX as int, u2 as int, MOD_MAX as int);
                lemma_mul_nonnegative(q as int, u2 as int);
            }
            let new_r2 = r % r2;
            let qm = (q * u2) % p;
            let new_u2 = (u + (p - qm)) % p;
            proof {
                let pi = p as int;
                let ri = r as int;
                let r2i = r2 as int;
                let qi = q as int;
                let ui = u as int;
                let u2i = u2 as int;
                let x = xi as int;
                // new_r2 == r - q * r2
                lemma_fundamental_div_mod(ri, r2i);
                assert(new_r2 as int == ri - r2i * qi);
                // (r - q*r2) % p == (u*x - q*(u2*x)) % p
                assert((ri - r2i * qi) % pi == (ui * x - qi * (u2i * x)) % pi) by {
                    lemma_sub_mod_noop(ri, r2i * qi, pi);
                    assert((r2i * qi) % pi == (qi * (u2i * x)) % pi) by {
                        lemma_mul_mod_noop_general(qi, r2i, pi);
                        lemma_mul_mod_noop_general(qi, u2i * x, pi);
                    }
                    lemma_sub_mod_noop(ui * x, qi * (u2i * x), pi);
                }
                // (u*x - q*(u2*x)) % p == ((u - q*u2) * x) % p
                assert(ui * x - qi * (u2i * x) == (ui - qi * u2i) * x) by {
                    lemma_mul_is_associative(qi, u2i, x);
                    lemma_mul_is_distributive_sub_other_way(x, ui, qi * u2i);
                }
                // (u - q*u2) % p == (u + p - qm) % p, and the latter is new_u2
                assert((ui - qi * u2i) % pi == new_u2 as int) by {
                    lemma_sub_mod_noop_right(ui, qi * u2i, pi);
                    lemma_mod_add_multiples_vanish(ui - (qm as int), pi);
                    assert((ui - qi * u2i) % pi == (ui - qm) % pi);
                    assert((pi + (ui - qm)) % pi == (ui - qm) % pi);
                }
                // hence the congruence carries to the new pair
                assert(((ui - qi * u2i) * x) % pi == ((new_u2 as int) * x) % pi) by {
                    lemma_mul_mod_noop_left(ui - qi * u2i, x, pi);
                }
            }
            let rs = r2;
            let us = u2;
            r = rs;
            u = us;
            r2 = new_r2;
            u2 = new_u2;
        }
        proof {
            assert(gcd(r as nat, 0) == r as nat);
            assert(r == 1);
            lemma_small_mod(1nat, self.p as nat);
            assert(((u as int) * (self.x as int)) % (self.p as int) == 1);
            lemma_mul_mod_noop_general(u as int, self.x as int, self.p as int);
        }
        F { p, x: u }
    }
}

/// Congruence modulo `p`: `u` and `v` differ by a multiple of `p`.
pub open spec fn cong(p: int, u: int, v: int) -> bool {
    (u - v) % p == 0
}

/// Congruence is reflexive.
pub proof fn lemma_cong_refl(p: int, u: int)
    requires
        2 <= p,
    ensures
        cong(p, u, u),
{
    lemma_small_mod(0nat, p as nat);
}

/// Congruence is symmetric.
pub proof fn lemma_cong_sym(p: int, u: int, v: int)
    requires
        2 <= p,
        cong(p, u, v),
    ensures
        cong(p, v, u),
{
    lemma_mod_equivalence(u, v, p);
    lemma_mod_equivalence(v, u, p);
}

/// Congruence is transitive.
pub proof fn lemma_cong_trans(p: int, u: int, v: int, w: int)
    requires
        2 <= p,
        cong(p, u, v),
        cong(p, v, w),
    ensures
        cong(p, u, w),
{
    lemma_mod_equivalence(u, v, p);
    lemma_mod_equivalence(v, w, p);
    lemma_mod_equivalence(u, w, p);
}

/// Congruence is preserved by addition.
pub proof fn lemma_cong_add(p: int, u1: int, v1: int, u2: int, v2: int)
    requires
        2 <= p,
        cong(p, u1, v1),
        cong(p, u2, v2),
    ensures
        cong(p, u1 + u2, v1 + v2),
{
    lemma_mod_equivalence(u1, v1, p);
    lemma_mod_equivalence(u2, v2, p);
    lemma_add_mod_noop(u1, u2, p);
    lemma_add_mod_noop(v1, v2, p);
    lemma_mod_equivalence(u1 + u2, v1 + v2, p);
}

/// Congruence is preserved by subtraction.
pub proof fn lemma_cong_sub(p: int, u1: int, v1: int, u2: int, v2: int)
    requires
        2 <= p,
        cong(p, u1, v1),
        cong(p, u2, v2),
    ensures
        cong(p, u1 - u2, v1 - v2),
{
    lemma_mod_equivalence(u1, v1, p);
    lemma_mod_equivalence(u2, v2, p);
    lemma_sub_mod_noop(u1, u2, p);
    lemma_sub_mod_noop(v1, v2, p);
    lemma_mod_equivalence(u1 - u2, v1 - v2, p);
}

/// Congruence is preserved by multiplication.
pub proof fn lemma_cong_mul(p: int, u1: int, v1: int, u2: int, v2: int)
    requires
        2 <= p,
        cong(p, u1, v1),
        cong(p, u2, v2),
    ensures
        cong(p, u1 * u2, v1 * v2),
{
    lemma_mod_equivalence(u1, v1, p);
    lemma_mod_equivalence(u2, v2, p);
    lemma_mul_mod_noop_general(u1, u2, p);
    lemma_mul_mod_noop_general(v1, v2, p);
    lemma_mod_equivalence(u1 * u2, v1 * v2, p);
}

/// Reducing modulo `p` stays in the congruence class.
pub proof fn lemma_cong_mod(p: int, u: int)
    requires
        2 <= p,
    ensures
        cong(p, u % p, u),
{
    lemma_mod_twice(u, p);
    lemma_mod_equivalence(u % p, u, p);
}

/// The reduced sum is congruent to the plain sum.
pub proof fn lemma_fadd_cong(p: int, a: int, b: int)
    requires
        2 <= p,
    ensures
        cong(p, fadd(p, a, b), a + b),
{
    lemma_cong_mod(p, a + b);
}

/// The reduced product is congruent to the plain product.
pub proof fn lemma_fmul_cong(p: int, a: int, b: int)
    requires
        2 <= p,
    ensures
        cong(p, fmul(p, a, b), a * b),
{
    lemma_cong_mod(p, a * b);
}

/// The reduced negation is congruent to the plain negation.
pub proof fn lemma_fneg_cong(p: int, a: int)
    requires
        2 <= p,
    ensures
        cong(p, fneg(p, a), -a),
{
    lemma_cong_mod(p, p - a);
    assert(cong(p, p - a, -a)) by {
        lemma_mod_self_0(p);
    }
    lemma_cong_trans(p, fneg(p, a), p - a, -a);
}

/// The reduced difference is congruent to the plain difference.
pub proof fn lemma_fsub_cong(p: int, a: int, b: int)
    requires
        2 <= p,
    ensures
        cong(p, fsub(p, a, b), a - b),
{
    lemma_cong_mod(p, a + fneg(p, b));
    lemma_fneg_cong(p, b);
    lemma_cong_refl(p, a);
    lemma_cong_add(p, a, a, fneg(p, b), -b);
    lemma_cong_trans(p, fsub(p, a, b), a + fneg(p, b), a - b);
}

/// Congruence is preserved by negation.
pub proof fn lemma_cong_neg(p: int, u: int, v: int)
    requires
        2 <= p,
        cong(p, u, v),
    ensures
        cong(p, -u, -v),
{
    lemma_cong_refl(p, 0);
    lemma_cong_sub(p, 0, 0, u, v);
}

/// The reduced sum of two values is congruent to the plain sum of congruent
/// values.
pub proof fn lemma_fadd_cong_to(p: int, u: int, ut: int, v: int, vt: int)
    requires
        2 <= p,
        cong(p, u, ut),
        cong(p, v, vt),
    ensures
        cong(p, fadd(p, u, v), ut + vt),
{
    lemma_fadd_cong(p, u, v);
    lemma_cong_add(p, u, ut, v, vt);
    lemma_cong_trans(p, fadd(p, u, v), u + v, ut + vt);
}

/// The reduced product of two values is congruent to the plain product of
/// congruent values.
pub proof fn lemma_fmul_cong_to(p: int, u: int, ut: int, v: int, vt: int)
    requires
        2 <= p,
        cong(p, u, ut),
        cong(p, v, vt),
    ensures
        cong(p, fmul(p, u, v), ut * vt),
{
    lemma_fmul_cong(p, u, v);
    lemma_cong_mul(p, u, ut, v, vt);
    lemma_cong_trans(p, fmul(p, u, v), u * v, ut * vt);
}

/// The reduced negation of a value is congruent to the plain negation of a
/// congruent value.
pub proof fn lemma_fneg_cong_to(p: int, u: int, ut: int)
    requires
        2 <= p,
        cong(p, u, ut),
    ensures
        cong(p, fneg(p, u), -ut),
{
    lemma_fneg_cong(p, u);
    lemma_cong_neg(p, u, ut);
    lemma_cong_trans(p, fneg(p, u), -u, -ut);
}

/// Two reduced representatives of one congruence class are equal.
pub proof fn lemma_cong_eq(p: int, u: int, v: int)
    requires
        2 <= p,
        0 <= u < p,
        0 <= v < p,
        cong(p, u, v),
    ensures
        u == v,
{
    lemma_mod_equivalence(u, v, p);
    lemma_small_mod(u as nat, p as nat);
    lemma_small_mod(v as nat, p as nat);
}

/// The greatest common divisor is an integer linear combination of its two
/// arguments.
pub proof fn lemma_gcd_linear_comb(a: nat, b: nat)
    ensures
        exists|uv: (int, int)| #[trigger] (uv.0 * a + uv.1 * b) == gcd(a, b),
    decreases b,
{
    if b == 0 {
        let w = (1int, 0int);
        assert(w.0 * a + w.1 * b == gcd(a, b));
    } else {
        lemma_gcd_linear_comb(b, a % b);
        let uv = choose|uv: (int, int)| #[trigger] (uv.0 * b + uv.1 * (a % b)) == gcd(b, a % b);
        let u2 = uv.0;
        let v2 = uv.1;
        lemma_fundamental_div_mod(a as int, b as int);
        let q = (a as int) / (b as int);
        let w = (v2, u2 - v2 * q);
        assert(w.0 * a + w.1 * b == gcd(a, b)) by {
            assert((u2 - v2 * q) * b == u2 * b - v2 * (q * b)) by {
                lemma_mul_is_distributive_sub_other_way(b as int, u2, v2 * q);
                lemma_mul_is_associative(v2, q, b as int);
            }
            assert(v2 * ((a % b) as int) == v2 * a - v2 * (q * b)) by {
                lemma_mul_is_commutative(b as int, q);
                lemma_mul_is_distributive_sub(v2, a as int, q * b);
            }
        }
    }
}

/// A residue coprime to the modulus has a multiplicative inverse.
pub proof fn lemma_coprime_inverse_exists(p: nat, d: nat)
    requires
        2 <= p,
        gcd(d, p) == 1,
    ensures
        exists|w: int| 0 <= w < p && #[trigger] fmul(p as int, d as int, w) == 1,
{
    let pi = p as int;
    let di = d as int;
    lemma_gcd_linear_comb(d, p);
    let uv = choose|uv: (int, int)| #[trigger] (uv.0 * d + uv.1 * p) == gcd(d, p);
    let u = uv.0;
    let v = uv.1;
    assert(u * di + v * pi == 1);
    assert((u * di) % pi == 1) by {
        assert(pi * v + u * di == 1) by {
            lemma_mul_is_commutative(v, pi);
        }
        lemma_mod_multiples_vanish(v, u * di, pi);
        lemma_small_mod(1nat, p);
    }
    let w = u % pi;
    lemma_mul_mod_noop_left(u, di, pi);
    assert(fmul(pi, di, w) == 1) by {
        lemma_mul_is_commutative(di, w);
    }
}

/// Law: every residue added to its negation gives the zero residue.
pub proof fn lemma_add_neg_zero(p: int, a: int)
    requires
        2 <= p,
        0 <= a < p,
    ensures
        fadd(p, a, fneg(p, a)) == 0,
{
    lemma_mod_self_0(p);
    lemma_small_mod(0nat, p as nat);
    if a != 0 {
        lemma_small_mod((p - a) as nat, p as nat);
    }
}

/// Law: the zero residue is the additive identity.
pub proof fn lemma_fadd_zero(p: int, a: int)
    requires
        2 <= p,
        0 <= a < p,
    ensures
        fadd(p, a, 0) == a,
{
    lemma_small_mod(a as nat, p as nat);
}

/// Law: the one residue is the multiplicative identity.
pub proof fn lemma_fmul_one(p: int, a: int)
    requires
        2 <= p,
        0 <= a < p,
    ensures
        fmul(p, a, 1) == a,
{
    lemma_small_mod(a as nat, p as nat);
}

/// Law: modular addition is commutative.
pub proof fn lemma_fadd_comm(p: int, a: int, b: int)
    ensures
        fadd(p, a, b) == fadd(p, b, a),
{
}

/// Law: modular multiplication is commutative.
pub proof fn lemma_fmul_comm(p: int, a: int, b: int)
    ensures
        fmul(p, a, b) == fmul(p, b, a),
{
    lemma_mul_is_commutative(a, b);
}

/// Law: modular addition is associative.
pub proof fn lemma_fadd_assoc(p: int, a: int, b: int, c: int)
    requires
        2 <= p,
        0 <= a < p,
        0 <= b < p,
        0 <= c < p,
    ensures
        fadd(p, fadd(p, a, b), c) == fadd(p, a, fadd(p, b, c)),
{
    lemma_small_mod(a as nat, p as nat);
    lemma_small_mod(c as nat, p as nat);
    lemma_add_mod_noop(a + b, c, p);
    lemma_add_mod_noop(a, b + c, p);
}

/// Law: modular multiplication is associative.
pub proof fn lemma_fmul_assoc(p: int, a: int, b: int, c: int)
    requires
        2 <= p,
    ensures
        fmul(p, fmul(p, a, b), c) == fmul(p, a, fmul(p, b, c)),
{
    lemma_mul_mod_noop_left(a * b, c, p);
    lemma_mul_mod_noop_right(a, b * c, p);
    lemma_mul_is_associative(a, b, c);
}

/// Law: modular multiplication distributes over modular addition.
pub proof fn lemma_fmul_distrib(p: int, a: int, b: int, c: int)
    requires
        2 <= p,
    ensures
        fmul(p, a, fadd(p, b, c)) == fadd(p, fmul(p, a, b), fmul(p, a, c)),
{
    lemma_mul_mod_noop_right(a, b + c, p);
    lemma_mul_is_distributive_add(a, b, c);
    lemma_add_mod_noop(a * b, a * c, p);
}

} // verus!
