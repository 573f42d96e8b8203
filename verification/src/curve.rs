//! The point group of an elliptic curve in short Weierstrass form
//! `y^2 = x^3 + a*x + b` over the residue field: membership test,
//! discriminant, the group law, scalar multiplication, and a search for a
//! point with a given abscissa.

use crate::field::{
    cong, fadd, fmul, fneg, fsub, gcd, is_prime, lemma_cong_add, lemma_cong_mod, lemma_cong_mul,
    lemma_cong_eq, lemma_cong_refl, lemma_cong_sub, lemma_cong_sym, lemma_cong_trans,
    lemma_coprime_inverse_exists, lemma_fadd_cong, lemma_fadd_cong_to, lemma_fmul_cong_to,
    lemma_fneg_cong, lemma_fneg_cong_to, lemma_fsub_cong, lemma_prime_nonzero_coprime, F,
};
use vstd::arithmetic::div_mod::{
    lemma_add_mod_noop, lemma_add_mod_noop_right, lemma_fundamental_div_mod_converse_mod,
    lemma_mod_add_multiples_vanish, lemma_mod_equivalence, lemma_mod_multiples_basic,
    lemma_mod_self_0, lemma_mul_mod_noop_general, lemma_mul_mod_noop_left,
    lemma_mul_mod_noop_right, lemma_small_mod, lemma_sub_mod_noop_right,
};
use vstd::arithmetic::mul::{
    lemma_mul_is_associative, lemma_mul_is_commutative, lemma_mul_is_distributive_sub,
    lemma_mul_is_distributive_sub_other_way,
};
use vstd::prelude::*;

verus! {

/// A point of the curve's group: the point at infinity, which is the group
/// identity, or a finite affine point.
#[derive(Debug, Clone, Copy, PartialEq, Eq, Structural)]
pub enum Point {
    Infini,
    Fini(F, F),
}

impl Point {
    /// Well-formedness relative to a modulus: finite coordinates are reduced
    /// residues of that modulus.
    pub open spec fn ok(self, p: u64) -> bool {
        match self {
            Point::Infini => true,
            Point::Fini(x, y) => x.valid() && y.valid() && x.p == p && y.p == p,
        }
    }
}

/// The finite point with the given reduced coordinates, as a value.
pub open spec fn fini_at(pm: u64, xv: int, yv: int) -> Point {
    Point::Fini(F { p: pm, x: xv as u64 }, F { p: pm, x: yv as u64 })
}

/// An immutable curve `y^2 = x^3 + a*x + b` over the field of the
/// coefficients' common modulus.
pub struct EllipticCurve {
    pub a: F,
    pub b: F,
}

impl EllipticCurve {
    /// Well-formedness: both coefficients are reduced residues of one modulus.
    pub open spec fn valid(self) -> bool {
        self.a.valid() && self.b.valid() && self.a.p == self.b.p
    }

    /// The modulus of the field the curve lives over.
    pub open spec fn modulus(self) -> u64 {
        self.a.p
    }
}

/// The group law as a value, case by case: the point at infinity absorbs
/// into the other operand; distinct abscissas give the chord construction;
/// equal abscissas with distinct ordinates give the point at infinity (a
/// vertical line); doubling a point with nonzero ordinate uses the tangent
/// construction; doubling a point with ordinate zero gives the point at
/// infinity. Every step reduces in the field exactly as the executable code
/// reduces it. A pair sharing an abscissa whose ordinates are neither equal
/// nor opposite cannot both lie on one curve over a prime modulus; `add_ok`
/// excludes such a pair, and this function maps it to the point at infinity.
pub open spec fn spec_add(c: EllipticCurve, p1: Point, p2: Point) -> Point {
    match (p1, p2) {
        (Point::Infini, _) => p2,
        (_, Point::Infini) => p1,
        (Point::Fini(x1, y1), Point::Fini(x2, y2)) => {
            let p = c.modulus() as int;
            let x1v = x1.x as int;
            let y1v = y1.x as int;
            let x2v = x2.x as int;
            let y2v = y2.x as int;
            let av = c.a.x as int;
            if x1v != x2v {
                let di = finv(p, fsub(p, x1v, x2v));
                let s = fmul(p, fsub(p, y1v, y2v), di);
                let t = fmul(p, fadd(p, fmul(p, y2v, x1v), fneg(p, fmul(p, y1v, x2v))), di);
                let x3 = fadd(p, fadd(p, fmul(p, s, s), fneg(p, x1v)), fneg(p, x2v));
                let y3 = fadd(p, fmul(p, fneg(p, s), x3), fneg(p, t));
                fini_at(c.modulus(), x3, y3)
            } else if y1v != y2v {
                Point::Infini
            } else if y1v != 0 {
                let s = fmul(
                    p,
                    fadd(p, fmul(p, fmul(p, 3int % p, x1v), x1v), av),
                    finv(p, fadd(p, y1v, y1v)),
                );
                let x3 = fadd(p, fmul(p, s, s), fneg(p, fadd(p, x1v, x1v)));
                let y3 = fadd(
                    p,
                    fneg(p, y1v),
                    fmul(p, s, fadd(p, fadd(p, fadd(p, x1v, fneg(p, fmul(p, s, s))), x1v), x1v)),
                );
                fini_at(c.modulus(), x3, y3)
            } else {
                Point::Infini
            }
        },
    }
}

/// The pairs on which the group law is defined: wherever a field inverse is
/// taken its argument must be coprime to the modulus (automatic over a prime
/// modulus), and two points sharing an abscissa with distinct ordinates must
/// be exact opposites — anything else means the operands do not both lie on
/// one curve, which the group law treats as a contract violation.
pub open spec fn add_ok(c: EllipticCurve, p1: Point, p2: Point) -> bool {
    match (p1, p2) {
        (Point::Fini(x1, y1), Point::Fini(x2, y2)) => {
            let p = c.modulus() as int;
            let x1v = x1.x as int;
            let y1v = y1.x as int;
            let x2v = x2.x as int;
            let y2v = y2.x as int;
            if x1v != x2v {
                gcd(fsub(p, x1v, x2v) as nat, c.modulus() as nat) == 1
            } else if y1v != y2v {
                y1v == fneg(p, y2v)
            } else if y1v != 0 {
                gcd(fadd(p, y1v, y1v) as nat, c.modulus() as nat) == 1
            } else {
                true
            }
        },
        _ => true,
    }
}

/// Scalar multiplication as a value, by recursive halving: `0 * pt` is the
/// point at infinity; for positive `k`, `k * pt` doubles `(k / 2) * pt` and,
/// when `k` is odd, adds `pt` once more.
pub open spec fn spec_mul(c: EllipticCurve, pt: Point, k: nat) -> Point
    decreases k,
{
    if k == 0 {
        Point::Infini
    } else {
        let m2 = spec_mul(c, pt, k / 2);
        let d = spec_add(c, m2, m2);
        if k % 2 == 0 {
            d
        } else {
            spec_add(c, d, pt)
        }
    }
}

/// The scalars on which scalar multiplication is defined: every group-law
/// application the recursion performs must be on a pair that `add_ok`
/// admits. Over a prime modulus this holds of every point of the curve.
pub open spec fn mul_ok(c: EllipticCurve, pt: Point, k: nat) -> bool
    decreases k,
{
    if k == 0 {
        true
    } else {
        let m2 = spec_mul(c, pt, k / 2);
        mul_ok(c, pt, k / 2) && add_ok(c, m2, m2) && (k % 2 != 0 ==> add_ok(
            c,
            spec_add(c, m2, m2),
            pt,
        ))
    }
}

/// Whether a point satisfies the curve equation: the point at infinity always
/// does; a finite point does exactly when `y^2 == x^3 + a*x + b` holds in the
/// field, stated as the congruence `y^2 - (x^3 + a*x + b) == 0 (mod p)`.
pub open spec fn on_curve(c: EllipticCurve, pt: Point) -> bool {
    match pt {
        Point::Infini => true,
        Point::Fini(x, y) => {
            let p = c.modulus() as int;
            let xv = x.x as int;
            let yv = y.x as int;
            let av = c.a.x as int;
            let bv = c.b.x as int;
            (yv * yv - (xv * xv * xv + av * xv + bv)) % p == 0
        },
    }
}

/// The multiplicative inverse of `a` modulo `p` as a value: the unique
/// residue `b` in `[0, p)` with `(a * b) % p == 1`, where one exists.
pub open spec fn finv(p: int, a: int) -> int {
    choose|b: int| 0 <= b < p && fmul(p, a, b) == 1
}

/// Two residues that both invert the same value modulo `p` are equal.
pub proof fn lemma_inv_unique(p: int, a: int, b1: int, b2: int)
    requires
        2 <= p,
        0 <= b1 < p,
        0 <= b2 < p,
        fmul(p, a, b1) == 1,
        fmul(p, a, b2) == 1,
    ensures
        b1 == b2,
{
    lemma_small_mod(b1 as nat, p as nat);
    lemma_small_mod(b2 as nat, p as nat);
    // b1 == (b1 * ((a * b2) % p)) % p == (b1 * (a * b2)) % p
    lemma_mul_mod_noop_right(b1, a * b2, p);
    // b1 * (a * b2) == (a * b1) * b2
    lemma_mul_is_associative(b1, a, b2);
    lemma_mul_is_commutative(b1, a);
    // ((a * b1) * b2) % p == (((a * b1) % p) * b2) % p == b2
    lemma_mul_mod_noop_left(a * b1, b2, p);
}

/// The value of the discriminant computation `-16 * (4*a^3 + 27*b^2)`, with
/// every step reduced in the field exactly as the executable code reduces it.
pub open spec fn spec_discriminant(c: EllipticCurve) -> int {
    let p = c.modulus() as int;
    let av = c.a.x as int;
    let bv = c.b.x as int;
    fmul(
        p,
        fneg(p, 16int % p),
        fadd(
            p,
            fmul(p, fmul(p, fmul(p, 4int % p, av), av), av),
            fmul(p, fmul(p, 27int % p, bv), bv),
        ),
    )
}

/// The step-by-step reduced discriminant computation equals the single
/// reduction of the integer `-16 * (4*a^3 + 27*b^2)`.
pub proof fn lemma_discriminant_value(c: EllipticCurve)
    requires
        c.valid(),
    ensures
        spec_discriminant(c) == (-16 * (4 * c.a.x * c.a.x * c.a.x + 27 * c.b.x * c.b.x)) % (
        c.modulus() as int),
{
    let p = c.modulus() as int;
    let av = c.a.x as int;
    let bv = c.b.x as int;
    // (((4 % p) * a) % p ... folds to (4 * a * a * a) % p, and likewise for 27 * b * b
    lemma_mul_mod_noop_left(4int, av, p);
    lemma_mul_mod_noop_left(4 * av, av, p);
    lemma_mul_mod_noop_left(4 * av * av, av, p);
    lemma_mul_mod_noop_left(27int, bv, p);
    lemma_mul_mod_noop_left(27 * bv, bv, p);
    lemma_add_mod_noop(4 * av * av * av, 27 * bv * bv, p);
    // (p - 16 % p) % p is the residue of -16
    lemma_sub_mod_noop_right(p, 16int, p);
    lemma_mod_add_multiples_vanish(-16, p);
    // multiplying the two residues reduces the product of the integers
    lemma_mul_mod_noop_general(-16, 4 * av * av * av + 27 * bv * bv, p);
}

impl EllipticCurve {
    /// The discriminant `-16 * (4*a^3 + 27*b^2)` of the curve, a diagnostic
    /// value: it vanishes exactly on singular curves, but nothing here
    /// rejects such a curve.
    pub fn discriminant(&self) -> (r: F)
        requires
            self.valid(),
        ensures
            r.p == self.modulus(),
            r.valid(),
            r.x == spec_discriminant(*self),
    {
        let a = self.a;
        let b = self.b;
        let c16 = F::new(self.a.p, 16);
        let c4 = F::new(self.a.p, 4);
        let c27 = F::new(self.a.p, 27);
        c16.neg().mul(c4.mul(a).mul(a).mul(a).add(c27.mul(b).mul(b)))
    }

    /// Whether the point lies on the curve. The point at infinity is always a
    /// member; a finite point is one exactly when it satisfies the curve
    /// equation in the field.
    pub fn contient(&self, point: Point) -> (r: bool)
        requires
            self.valid(),
            point.ok(self.modulus()),
        ensures
            r == on_curve(*self, point),
    {
        match point {
            Point::Infini => true,
            Point::Fini(x, y) => {
                let lhs = y.mul(y);
                let rhs = x.mul(x).mul(x).add(self.a.mul(x)).add(self.b);
                proof {
                    let p = self.modulus() as int;
                    let xv = x.x as int;
                    let yv = y.x as int;
                    let av = self.a.x as int;
                    let bv = self.b.x as int;
                    lemma_small_mod(self.b.x as nat, self.b.p as nat);
                    lemma_mul_mod_noop_left(xv * xv, xv, p);
                    lemma_add_mod_noop(xv * xv * xv, av * xv, p);
                    lemma_add_mod_noop(xv * xv * xv + av * xv, bv, p);
                    assert(rhs.x == (xv * xv * xv + av * xv + bv) % p);
                    lemma_mod_equivalence(yv * yv, xv * xv * xv + av * xv + bv, p);
                }
                lhs == rhs
            },
        }
    }

    /// The group law. Either operand equal to the point at infinity is
    /// absorbed; otherwise the chord, vertical-line, tangent or
    /// vertical-tangent case applies, as `spec_add` states case by case.
    pub fn add(&self, p1: Point, p2: Point) -> (r: Point)
        requires
            self.valid(),
            p1.ok(self.modulus()),
            p2.ok(self.modulus()),
            add_ok(*self, p1, p2),
        ensures
            r == spec_add(*self, p1, p2),
            r.ok(self.modulus()),
    {
        match (p1, p2) {
            (Point::Infini, _) => p2,
            (_, Point::Infini) => p1,
            (Point::Fini(xp, yp), Point::Fini(xq, yq)) => {
                if xp != xq {
                    let d = xp.add(xq.neg());
                    let dinv = d.inv();
                    proof {
                        let p = self.a.p as int;
                        let dv = d.x as int;
                        assert(exists|bb: int| 0 <= bb < p && fmul(p, dv, bb) == 1) by {
                            assert(0 <= (dinv.x as int) < p && fmul(p, dv, dinv.x as int) == 1);
                        }
                        lemma_inv_unique(p, dv, dinv.x as int, finv(p, dv));
                    }
                    let s = yp.add(yq.neg()).mul(dinv);
                    let t = yq.mul(xp).add(yp.mul(xq).neg()).mul(dinv);
                    let x3 = s.mul(s).add(xp.neg()).add(xq.neg());
                    Point::Fini(x3, s.neg().mul(x3).add(t.neg()))
                } else if yp != yq {
                    Point::Infini
                } else if yp.x != 0 {
                    let two_y = yp.add(yp);
                    let tyinv = two_y.inv();
                    proof {
                        let p = self.a.p as int;
                        let dv = two_y.x as int;
                        assert(exists|bb: int| 0 <= bb < p && fmul(p, dv, bb) == 1) by {
                            assert(0 <= (tyinv.x as int) < p && fmul(p, dv, tyinv.x as int) == 1);
                        }
                        lemma_inv_unique(p, dv, tyinv.x as int, finv(p, dv));
                    }
                    let s = F::new(self.a.p, 3).mul(xp).mul(xp).add(self.a).mul(tyinv);
                    let x3 = s.mul(s).add(xp.add(xp).neg());
                    Point::Fini(x3, yp.neg().add(s.mul(xp.add(s.mul(s).neg()).add(xp).add(xp))))
                } else {
                    Point::Infini
                }
            },
        }
    }

    /// Scalar multiplication `i * p` by recursive halving and doubling:
    /// the zero scalar gives the point at infinity, an even scalar doubles
    /// the half multiple, and an odd scalar adds `p` once more.
    pub fn mul(&self, p: Point, i: u64) -> (r: Point)
        requires
            self.valid(),
            p.ok(self.modulus()),
            mul_ok(*self, p, i as nat),
        ensures
            r == spec_mul(*self, p, i as nat),
            r.ok(self.modulus()),
        decreases i,
    {
        if i == 0 {
            Point::Infini
        } else if i % 2 == 0 {
            let m2 = self.mul(p, i / 2);
            self.add(m2, m2)
        } else {
            let m2 = self.mul(p, i / 2);
            self.add(self.add(m2, m2), p)
        }
    }

    /// The finite point with abscissa `x` and the smallest ordinate that
    /// satisfies the curve equation, found by searching every residue in
    /// order; the point at infinity when no ordinate fits.
    pub fn get_point(&self, x: F) -> (r: Point)
        requires
            self.valid(),
            x.valid(),
            x.p == self.modulus(),
        ensures
            r.ok(self.modulus()),
            match r {
                Point::Infini => forall|yy: u64|
                    yy < self.modulus() ==> !(#[trigger] on_curve(
                        *self,
                        fini_at(self.modulus(), x.x as int, yy as int),
                    )),
                Point::Fini(rx, ry) => rx == x && on_curve(*self, r) && forall|yy: u64|
                    yy < ry.x ==> !(#[trigger] on_curve(
                        *self,
                        fini_at(self.modulus(), x.x as int, yy as int),
                    )),
            },
    {
        let p = self.a.p;
        let mut y: u64 = 0;
        while y < p
            invariant
                self.valid(),
                x.valid(),
                x.p == p,
                p == self.modulus(),
                y <= p,
                forall|yy: u64|
                    yy < y ==> !(#[trigger] on_curve(
                        *self,
                        fini_at(p, x.x as int, yy as int),
                    )),
            decreases p - y,
        {
            let yf = F::new(p, y as i64);
            let cand = Point::Fini(x, yf);
            proof {
                lemma_small_mod(y as nat, p as nat);
                assert(cand == fini_at(p, x.x as int, y as int));
            }
            if self.contient(cand) {
                return cand;
            }
            y = y + 1;
        }
        Point::Infini
    }
}

/// Over an odd prime modulus the group law is defined on every well-formed
/// pair whose shared-abscissa, distinct-ordinate case is an exact opposite
/// pair: each inverse the law may take is then of a nonzero residue, and a
/// nonzero residue is coprime to a prime modulus.
pub proof fn lemma_add_ok_prime(c: EllipticCurve, p1: Point, p2: Point)
    requires
        c.valid(),
        is_prime(c.modulus() as nat),
        c.modulus() % 2 == 1,
        p1.ok(c.modulus()),
        p2.ok(c.modulus()),
        match (p1, p2) {
            (Point::Fini(x1, y1), Point::Fini(x2, y2)) => (x1.x == x2.x && y1.x != y2.x)
                ==> y1.x as int == fneg(c.modulus() as int, y2.x as int),
            _ => true,
        },
    ensures
        add_ok(c, p1, p2),
{
    match (p1, p2) {
        (Point::Fini(x1, y1), Point::Fini(x2, y2)) => {
            let p = c.modulus() as int;
            let x1v = x1.x as int;
            let x2v = x2.x as int;
            let y1v = y1.x as int;
            let y2v = y2.x as int;
            if x1v != x2v {
                let d = fsub(p, x1v, x2v);
                assert(d == (x1v - x2v) % p) by {
                    lemma_add_mod_noop_right(x1v, p - x2v, p);
                    lemma_mod_add_multiples_vanish(x1v - x2v, p);
                }
                assert(d != 0) by {
                    lemma_mod_equivalence(x1v, x2v, p);
                    lemma_small_mod(x1.x as nat, c.modulus() as nat);
                    lemma_small_mod(x2.x as nat, c.modulus() as nat);
                }
                lemma_prime_nonzero_coprime(c.modulus() as nat, d as nat);
            } else if y1v != y2v {
                // the opposite-ordinate hypothesis is the condition itself
            } else if y1v != 0 {
                let t = fadd(p, y1v, y1v);
                if y1v + y1v < p {
                    lemma_small_mod((y1v + y1v) as nat, p as nat);
                } else {
                    lemma_fundamental_div_mod_converse_mod(y1v + y1v, p, 1, y1v + y1v - p);
                    assert((y1v * 2) % 2 == 0) by {
                        lemma_mod_multiples_basic(y1v, 2);
                    }
                    assert(t != 0);
                }
                lemma_prime_nonzero_coprime(c.modulus() as nat, t as nat);
            }
        },
        _ => {},
    }
}

/// The chord through two curve points with distinct abscissas meets the
/// curve again: with `w` an inverse of `x1 - x2` modulo `p`, the chord
/// construction satisfies the curve equation. The cubic minus the squared
/// chord line factors through `(X - x1) * (X - x2) * (X - x3)` up to a linear
/// tail whose two coefficients vanish modulo `p` because the cubic has roots
/// at `x1` and `x2` there.
proof fn lemma_chord_closure(p: int, a: int, b: int, x1: int, y1: int, x2: int, y2: int, w: int)
    requires
        2 <= p,
        cong(p, y1 * y1, x1 * x1 * x1 + a * x1 + b),
        cong(p, y2 * y2, x2 * x2 * x2 + a * x2 + b),
        cong(p, (x1 - x2) * w, 1),
    ensures
        ({
            let s = (y1 - y2) * w;
            let t = (y2 * x1 - y1 * x2) * w;
            let x3 = s * s - x1 - x2;
            let y3 = -(s * x3) - t;
            cong(p, y3 * y3, x3 * x3 * x3 + a * x3 + b)
        }),
{
    let s = (y1 - y2) * w;
    let t = (y2 * x1 - y1 * x2) * w;
    let x3 = s * s - x1 - x2;
    let y3 = -(s * x3) - t;
    let ss = s * s;
    let st = s * t;
    let cc = a - 2 * st - (x1 * x2 + x1 * x3 + x2 * x3);
    let dd = b - t * t + x1 * x2 * x3;
    let g1 = x1 * x1 * x1 + a * x1 + b;
    let g2 = x2 * x2 * x2 + a * x2 + b;
    let g3 = x3 * x3 * x3 + a * x3 + b;
    // the chord line passes through both points, modulo p
    assert(s * x1 + t == ((x1 - x2) * w) * y1) by (nonlinear_arith)
        requires
            s == (y1 - y2) * w,
            t == (y2 * x1 - y1 * x2) * w,
    ;
    assert(cong(p, s * x1 + t, y1)) by {
        lemma_cong_refl(p, y1);
        lemma_cong_mul(p, (x1 - x2) * w, 1, y1, y1);
    }
    assert(s * x2 + t == ((x1 - x2) * w) * y2) by (nonlinear_arith)
        requires
            s == (y1 - y2) * w,
            t == (y2 * x1 - y1 * x2) * w,
    ;
    assert(cong(p, s * x2 + t, y2)) by {
        lemma_cong_refl(p, y2);
        lemma_cong_mul(p, (x1 - x2) * w, 1, y2, y2);
    }
    // hence the squared line meets the cubic at x1 and x2, modulo p
    assert(cong(p, (s * x1 + t) * (s * x1 + t), g1)) by {
        lemma_cong_mul(p, s * x1 + t, y1, s * x1 + t, y1);
        lemma_cong_trans(p, (s * x1 + t) * (s * x1 + t), y1 * y1, g1);
    }
    assert(cong(p, (s * x2 + t) * (s * x2 + t), g2)) by {
        lemma_cong_mul(p, s * x2 + t, y2, s * x2 + t, y2);
        lemma_cong_trans(p, (s * x2 + t) * (s * x2 + t), y2 * y2, g2);
    }
    // at x1 and x2 the factored form of the cubic leaves only the linear tail
    assert((s * x1 + t) * (s * x1 + t) == ss * (x1 * x1) + 2 * (st * x1) + t * t)
        by (nonlinear_arith)
        requires
            ss == s * s,
            st == s * t,
    ;
    assert(g1 - (ss * (x1 * x1) + 2 * (st * x1) + t * t) == cc * x1 + dd) by (nonlinear_arith)
        requires
            x3 == ss - x1 - x2,
            cc == a - 2 * st - (x1 * x2 + x1 * x3 + x2 * x3),
            dd == b - t * t + x1 * x2 * x3,
            g1 == x1 * x1 * x1 + a * x1 + b,
    ;
    assert((s * x2 + t) * (s * x2 + t) == ss * (x2 * x2) + 2 * (st * x2) + t * t)
        by (nonlinear_arith)
        requires
            ss == s * s,
            st == s * t,
    ;
    assert(g2 - (ss * (x2 * x2) + 2 * (st * x2) + t * t) == cc * x2 + dd) by (nonlinear_arith)
        requires
            x3 == ss - x1 - x2,
            cc == a - 2 * st - (x1 * x2 + x1 * x3 + x2 * x3),
            dd == b - t * t + x1 * x2 * x3,
            g2 == x2 * x2 * x2 + a * x2 + b,
    ;
    // so both tail values vanish, and with them both coefficients
    assert(cong(p, cc * x1 + dd, 0)) by {
        lemma_cong_sym(p, (s * x1 + t) * (s * x1 + t), g1);
        lemma_cong_refl(p, (s * x1 + t) * (s * x1 + t));
        lemma_cong_sub(
            p,
            g1,
            (s * x1 + t) * (s * x1 + t),
            (s * x1 + t) * (s * x1 + t),
            (s * x1 + t) * (s * x1 + t),
        );
    }
    assert(cong(p, cc * x2 + dd, 0)) by {
        lemma_cong_sym(p, (s * x2 + t) * (s * x2 + t), g2);
        lemma_cong_refl(p, (s * x2 + t) * (s * x2 + t));
        lemma_cong_sub(
            p,
            g2,
            (s * x2 + t) * (s * x2 + t),
            (s * x2 + t) * (s * x2 + t),
            (s * x2 + t) * (s * x2 + t),
        );
    }
    assert(cong(p, cc * (x1 - x2), 0)) by {
        lemma_cong_sub(p, cc * x1 + dd, 0, cc * x2 + dd, 0);
        lemma_mul_is_distributive_sub(cc, x1, x2);
    }
    assert(cong(p, cc, 0)) by {
        lemma_cong_refl(p, cc);
        lemma_cong_mul(p, cc, cc, (x1 - x2) * w, 1);
        lemma_cong_refl(p, w);
        lemma_cong_mul(p, cc * (x1 - x2), 0, w, w);
        assert(cc * ((x1 - x2) * w) == (cc * (x1 - x2)) * w) by {
            lemma_mul_is_associative(cc, x1 - x2, w);
        }
        lemma_cong_sym(p, cc * ((x1 - x2) * w), cc * 1);
        lemma_cong_trans(p, cc, cc * ((x1 - x2) * w), 0 * w);
    }
    assert(cong(p, dd, 0)) by {
        lemma_cong_refl(p, x1);
        lemma_cong_mul(p, cc, 0, x1, x1);
        lemma_cong_sub(p, cc * x1 + dd, 0, cc * x1, 0 * x1);
    }
    // at x3 the factored form vanishes entirely
    assert(cong(p, cc * x3 + dd, 0)) by {
        lemma_cong_refl(p, x3);
        lemma_cong_mul(p, cc, 0, x3, x3);
        lemma_cong_add(p, cc * x3, 0 * x3, dd, 0);
    }
    assert((s * x3 + t) * (s * x3 + t) == ss * (x3 * x3) + 2 * (st * x3) + t * t)
        by (nonlinear_arith)
        requires
            ss == s * s,
            st == s * t,
    ;
    assert(g3 - (ss * (x3 * x3) + 2 * (st * x3) + t * t) == cc * x3 + dd) by (nonlinear_arith)
        requires
            x3 == ss - x1 - x2,
            cc == a - 2 * st - (x1 * x2 + x1 * x3 + x2 * x3),
            dd == b - t * t + x1 * x2 * x3,
            g3 == x3 * x3 * x3 + a * x3 + b,
    ;
    assert(cong(p, (s * x3 + t) * (s * x3 + t), g3)) by {
        lemma_cong_refl(p, 0);
        lemma_cong_sub(p, 0, 0, g3 - (s * x3 + t) * (s * x3 + t), 0);
    }
    // the chord result squares the line value at x3
    assert(y3 * y3 == (s * x3 + t) * (s * x3 + t)) by (nonlinear_arith)
        requires
            y3 == -(s * x3) - t,
    ;
    lemma_cong_trans(p, y3 * y3, (s * x3 + t) * (s * x3 + t), g3);
}

/// The tangent at a curve point with invertible doubled ordinate meets the
/// curve again: with `w` an inverse of `2 * y1` modulo `p`, the tangent
/// construction satisfies the curve equation. Here `x1` is a double root of
/// the cubic minus the squared tangent line, so the linear tail's leading
/// coefficient is the derivative defect at `x1`, which the slope choice
/// cancels.
proof fn lemma_tangent_closure(p: int, a: int, b: int, x1: int, y1: int, w: int)
    requires
        2 <= p,
        cong(p, y1 * y1, x1 * x1 * x1 + a * x1 + b),
        cong(p, (y1 + y1) * w, 1),
    ensures
        ({
            let s = (3 * x1 * x1 + a) * w;
            let x3 = s * s - 2 * x1;
            let y3 = s * (3 * x1 - s * s) - y1;
            cong(p, y3 * y3, x3 * x3 * x3 + a * x3 + b)
        }),
{
    let s = (3 * x1 * x1 + a) * w;
    let x3 = s * s - 2 * x1;
    let y3 = s * (3 * x1 - s * s) - y1;
    let t = y1 - s * x1;
    let ss = s * s;
    let st = s * t;
    let cc = a - 2 * st - (x1 * x1 + 2 * (x1 * x3));
    let dd = b - t * t + (x1 * x1) * x3;
    let g1 = x1 * x1 * x1 + a * x1 + b;
    let g3 = x3 * x3 * x3 + a * x3 + b;
    // the tangent line passes through the point exactly
    assert(s * x1 + t == y1);
    // at x1 the factored form of the cubic leaves only the linear tail
    assert(cong(p, cc * x1 + dd, 0)) by {
        assert((s * x1 + t) * (s * x1 + t) == ss * (x1 * x1) + 2 * (st * x1) + t * t)
            by (nonlinear_arith)
            requires
                ss == s * s,
                st == s * t,
        ;
        assert(g1 - (ss * (x1 * x1) + 2 * (st * x1) + t * t) == cc * x1 + dd)
            by (nonlinear_arith)
            requires
                x3 == ss - 2 * x1,
                cc == a - 2 * st - (x1 * x1 + 2 * (x1 * x3)),
                dd == b - t * t + (x1 * x1) * x3,
                g1 == x1 * x1 * x1 + a * x1 + b,
        ;
        lemma_cong_sym(p, y1 * y1, g1);
        lemma_cong_refl(p, y1 * y1);
        lemma_cong_sub(p, g1, y1 * y1, y1 * y1, y1 * y1);
    }
    // the leading tail coefficient is the derivative defect, which vanishes
    assert(cc == (3 * (x1 * x1) + a) - 2 * (s * y1)) by (nonlinear_arith)
        requires
            t == y1 - s * x1,
            x3 == ss - 2 * x1,
            ss == s * s,
            st == s * t,
            cc == a - 2 * st - (x1 * x1 + 2 * (x1 * x3)),
    ;
    assert(2 * (s * y1) == (3 * (x1 * x1) + a) * ((y1 + y1) * w)) by (nonlinear_arith)
        requires
            s == (3 * x1 * x1 + a) * w,
    ;
    assert(cong(p, cc, 0)) by {
        lemma_cong_refl(p, 3 * (x1 * x1) + a);
        lemma_cong_mul(p, 3 * (x1 * x1) + a, 3 * (x1 * x1) + a, (y1 + y1) * w, 1);
        lemma_cong_sub(p, 3 * (x1 * x1) + a, 3 * (x1 * x1) + a, 2 * (s * y1), 3 * (x1 * x1) + a);
    }
    assert(cong(p, dd, 0)) by {
        lemma_cong_refl(p, x1);
        lemma_cong_mul(p, cc, 0, x1, x1);
        lemma_cong_sub(p, cc * x1 + dd, 0, cc * x1, 0 * x1);
    }
    // at x3 the factored form vanishes entirely
    assert(cong(p, cc * x3 + dd, 0)) by {
        lemma_cong_refl(p, x3);
        lemma_cong_mul(p, cc, 0, x3, x3);
        lemma_cong_add(p, cc * x3, 0 * x3, dd, 0);
    }
    assert((s * x3 + t) * (s * x3 + t) == ss * (x3 * x3) + 2 * (st * x3) + t * t)
        by (nonlinear_arith)
        requires
            ss == s * s,
            st == s * t,
    ;
    assert(g3 - (ss * (x3 * x3) + 2 * (st * x3) + t * t) == cc * x3 + dd) by (nonlinear_arith)
        requires
            x3 == ss - 2 * x1,
            cc == a - 2 * st - (x1 * x1 + 2 * (x1 * x3)),
            dd == b - t * t + (x1 * x1) * x3,
            g3 == x3 * x3 * x3 + a * x3 + b,
    ;
    assert(cong(p, (s * x3 + t) * (s * x3 + t), g3)) by {
        lemma_cong_refl(p, 0);
        lemma_cong_sub(p, 0, 0, g3 - (s * x3 + t) * (s * x3 + t), 0);
    }
    // the tangent result squares the line value at x3
    assert(y3 * y3 == (s * x3 + t) * (s * x3 + t)) by (nonlinear_arith)
        requires
            y3 == s * (3 * x1 - s * s) - y1,
            t == y1 - s * x1,
            x3 == ss - 2 * x1,
            ss == s * s,
    ;
    lemma_cong_trans(p, y3 * y3, (s * x3 + t) * (s * x3 + t), g3);
}

/// Law: the group law sends members of the curve to members of the curve,
/// on every pair it is defined on.
pub proof fn lemma_add_closure(c: EllipticCurve, p1: Point, p2: Point)
    requires
        c.valid(),
        p1.ok(c.modulus()),
        p2.ok(c.modulus()),
        add_ok(c, p1, p2),
        on_curve(c, p1),
        on_curve(c, p2),
    ensures
        on_curve(c, spec_add(c, p1, p2)),
{
    let pm = c.modulus();
    let p = pm as int;
    match (p1, p2) {
        (Point::Fini(x1, y1), Point::Fini(x2, y2)) => {
            let x1v = x1.x as int;
            let y1v = y1.x as int;
            let x2v = x2.x as int;
            let y2v = y2.x as int;
            let av = c.a.x as int;
            let bv = c.b.x as int;
            lemma_cong_refl(p, x1v);
            lemma_cong_refl(p, x2v);
            lemma_cong_refl(p, y1v);
            lemma_cong_refl(p, y2v);
            lemma_cong_refl(p, av);
            lemma_cong_refl(p, bv);
            if x1v != x2v {
                let dr = fsub(p, x1v, x2v);
                let di = finv(p, dr);
                lemma_coprime_inverse_exists(pm as nat, dr as nat);
                assert(0 <= di < p && fmul(p, dr, di) == 1);
                lemma_cong_refl(p, di);
                assert(cong(p, (x1v - x2v) * di, 1)) by {
                    lemma_fsub_cong(p, x1v, x2v);
                    lemma_cong_sym(p, dr, x1v - x2v);
                    lemma_cong_mul(p, x1v - x2v, dr, di, di);
                    lemma_cong_mod(p, dr * di);
                    lemma_cong_sym(p, (dr * di) % p, dr * di);
                    lemma_cong_trans(p, (x1v - x2v) * di, dr * di, 1);
                }
                lemma_chord_closure(p, av, bv, x1v, y1v, x2v, y2v, di);
                let s0 = (y1v - y2v) * di;
                let t0 = (y2v * x1v - y1v * x2v) * di;
                let x30 = s0 * s0 - x1v - x2v;
                let y30 = -(s0 * x30) - t0;
                let sr = fmul(p, fsub(p, y1v, y2v), di);
                let tr = fmul(p, fadd(p, fmul(p, y2v, x1v), fneg(p, fmul(p, y1v, x2v))), di);
                let x3r = fadd(p, fadd(p, fmul(p, sr, sr), fneg(p, x1v)), fneg(p, x2v));
                let y3r = fadd(p, fmul(p, fneg(p, sr), x3r), fneg(p, tr));
                assert(cong(p, sr, s0)) by {
                    lemma_fsub_cong(p, y1v, y2v);
                    lemma_fmul_cong_to(p, fsub(p, y1v, y2v), y1v - y2v, di, di);
                }
                assert(cong(p, tr, t0)) by {
                    lemma_fmul_cong_to(p, y2v, y2v, x1v, x1v);
                    lemma_fmul_cong_to(p, y1v, y1v, x2v, x2v);
                    lemma_fneg_cong_to(p, fmul(p, y1v, x2v), y1v * x2v);
                    lemma_fadd_cong_to(
                        p,
                        fmul(p, y2v, x1v),
                        y2v * x1v,
                        fneg(p, fmul(p, y1v, x2v)),
                        -(y1v * x2v),
                    );
                    lemma_fmul_cong_to(
                        p,
                        fadd(p, fmul(p, y2v, x1v), fneg(p, fmul(p, y1v, x2v))),
                        y2v * x1v - y1v * x2v,
                        di,
                        di,
                    );
                }
                assert(cong(p, x3r, x30)) by {
                    lemma_fmul_cong_to(p, sr, s0, sr, s0);
                    lemma_fneg_cong_to(p, x1v, x1v);
                    lemma_fadd_cong_to(p, fmul(p, sr, sr), s0 * s0, fneg(p, x1v), -x1v);
                    lemma_fneg_cong_to(p, x2v, x2v);
                    lemma_fadd_cong_to(
                        p,
                        fadd(p, fmul(p, sr, sr), fneg(p, x1v)),
                        s0 * s0 - x1v,
                        fneg(p, x2v),
                        -x2v,
                    );
                }
                assert(cong(p, y3r, y30)) by {
                    lemma_fneg_cong_to(p, sr, s0);
                    lemma_fmul_cong_to(p, fneg(p, sr), -s0, x3r, x30);
                    assert((-s0) * x30 == -(s0 * x30)) by {
                        lemma_mul_is_distributive_sub_other_way(x30, 0, s0);
                    }
                    lemma_fneg_cong_to(p, tr, t0);
                    lemma_fadd_cong_to(
                        p,
                        fmul(p, fneg(p, sr), x3r),
                        -(s0 * x30),
                        fneg(p, tr),
                        -t0,
                    );
                }
                assert(cong(p, y3r * y3r, x3r * x3r * x3r + av * x3r + bv)) by {
                    lemma_cong_mul(p, y3r, y30, y3r, y30);
                    lemma_cong_mul(p, x3r, x30, x3r, x30);
                    lemma_cong_mul(p, x3r * x3r, x30 * x30, x3r, x30);
                    lemma_cong_mul(p, av, av, x3r, x30);
                    lemma_cong_add(p, x3r * x3r * x3r, x30 * x30 * x30, av * x3r, av * x30);
                    lemma_cong_add(
                        p,
                        x3r * x3r * x3r + av * x3r,
                        x30 * x30 * x30 + av * x30,
                        bv,
                        bv,
                    );
                    lemma_cong_trans(p, y3r * y3r, y30 * y30, x30 * x30 * x30 + av * x30 + bv);
                    lemma_cong_sym(
                        p,
                        x3r * x3r * x3r + av * x3r + bv,
                        x30 * x30 * x30 + av * x30 + bv,
                    );
                    lemma_cong_trans(
                        p,
                        y3r * y3r,
                        x30 * x30 * x30 + av * x30 + bv,
                        x3r * x3r * x3r + av * x3r + bv,
                    );
                }
                assert(spec_add(c, p1, p2) == fini_at(pm, x3r, y3r));
            } else if y1v != y2v {
                // a vertical chord: the sum is the point at infinity
            } else if y1v != 0 {
                let d2 = fadd(p, y1v, y1v);
                let di = finv(p, d2);
                lemma_coprime_inverse_exists(pm as nat, d2 as nat);
                assert(0 <= di < p && fmul(p, d2, di) == 1);
                lemma_cong_refl(p, di);
                assert(cong(p, (y1v + y1v) * di, 1)) by {
                    lemma_fadd_cong(p, y1v, y1v);
                    lemma_cong_sym(p, d2, y1v + y1v);
                    lemma_cong_mul(p, y1v + y1v, d2, di, di);
                    lemma_cong_mod(p, d2 * di);
                    lemma_cong_sym(p, (d2 * di) % p, d2 * di);
                    lemma_cong_trans(p, (y1v + y1v) * di, d2 * di, 1);
                }
                lemma_tangent_closure(p, av, bv, x1v, y1v, di);
                let s0 = (3 * x1v * x1v + av) * di;
                let x30 = s0 * s0 - 2 * x1v;
                let y30 = s0 * (3 * x1v - s0 * s0) - y1v;
                let m3 = fmul(p, 3int % p, x1v);
                let m3x = fmul(p, m3, x1v);
                let innr = fadd(p, m3x, av);
                let sr = fmul(p, innr, di);
                let half = fadd(p, fadd(p, fadd(p, x1v, fneg(p, fmul(p, sr, sr))), x1v), x1v);
                let x3r = fadd(p, fmul(p, sr, sr), fneg(p, fadd(p, x1v, x1v)));
                let y3r = fadd(p, fneg(p, y1v), fmul(p, sr, half));
                assert(cong(p, sr, s0)) by {
                    lemma_cong_mod(p, 3int);
                    lemma_fmul_cong_to(p, 3int % p, 3, x1v, x1v);
                    lemma_fmul_cong_to(p, m3, 3 * x1v, x1v, x1v);
                    lemma_fadd_cong_to(p, m3x, 3 * x1v * x1v, av, av);
                    lemma_fmul_cong_to(p, innr, 3 * x1v * x1v + av, di, di);
                }
                assert(cong(p, x3r, x30)) by {
                    lemma_fmul_cong_to(p, sr, s0, sr, s0);
                    lemma_fadd_cong_to(p, x1v, x1v, x1v, x1v);
                    lemma_fneg_cong_to(p, fadd(p, x1v, x1v), x1v + x1v);
                    lemma_fadd_cong_to(
                        p,
                        fmul(p, sr, sr),
                        s0 * s0,
                        fneg(p, fadd(p, x1v, x1v)),
                        -(x1v + x1v),
                    );
                }
                assert(cong(p, y3r, y30)) by {
                    lemma_fmul_cong_to(p, sr, s0, sr, s0);
                    lemma_fneg_cong_to(p, fmul(p, sr, sr), s0 * s0);
                    lemma_fadd_cong_to(p, x1v, x1v, fneg(p, fmul(p, sr, sr)), -(s0 * s0));
                    lemma_fadd_cong_to(
                        p,
                        fadd(p, x1v, fneg(p, fmul(p, sr, sr))),
                        x1v - s0 * s0,
                        x1v,
                        x1v,
                    );
                    lemma_fadd_cong_to(
                        p,
                        fadd(p, fadd(p, x1v, fneg(p, fmul(p, sr, sr))), x1v),
                        x1v - s0 * s0 + x1v,
                        x1v,
                        x1v,
                    );
                    lemma_fmul_cong_to(p, sr, s0, half, 3 * x1v - s0 * s0);
                    lemma_fneg_cong_to(p, y1v, y1v);
                    lemma_fadd_cong_to(
                        p,
                        fneg(p, y1v),
                        -y1v,
                        fmul(p, sr, half),
                        s0 * (3 * x1v - s0 * s0),
                    );
                }
                assert(cong(p, y3r * y3r, x3r * x3r * x3r + av * x3r + bv)) by {
                    lemma_cong_mul(p, y3r, y30, y3r, y30);
                    lemma_cong_mul(p, x3r, x30, x3r, x30);
                    lemma_cong_mul(p, x3r * x3r, x30 * x30, x3r, x30);
                    lemma_cong_mul(p, av, av, x3r, x30);
                    lemma_cong_add(p, x3r * x3r * x3r, x30 * x30 * x30, av * x3r, av * x30);
                    lemma_cong_add(
                        p,
                        x3r * x3r * x3r + av * x3r,
                        x30 * x30 * x30 + av * x30,
                        bv,
                        bv,
                    );
                    lemma_cong_trans(p, y3r * y3r, y30 * y30, x30 * x30 * x30 + av * x30 + bv);
                    lemma_cong_sym(
                        p,
                        x3r * x3r * x3r + av * x3r + bv,
                        x30 * x30 * x30 + av * x30 + bv,
                    );
                    lemma_cong_trans(
                        p,
                        y3r * y3r,
                        x30 * x30 * x30 + av * x30 + bv,
                        x3r * x3r * x3r + av * x3r + bv,
                    );
                }
                assert(spec_add(c, p1, p2) == fini_at(pm, x3r, y3r));
            }
        },
        _ => {},
    }
}

/// The group law always produces a well-formed point.
pub proof fn lemma_spec_add_wf(c: EllipticCurve, p1: Point, p2: Point)
    requires
        c.valid(),
        p1.ok(c.modulus()),
        p2.ok(c.modulus()),
    ensures
        spec_add(c, p1, p2).ok(c.modulus()),
{
}

/// Two distinct curve points over a prime modulus that share an abscissa
/// have opposite ordinates: the curve equation forces equal squares, and in
/// a prime field equal squares mean equal or opposite roots.
pub proof fn lemma_same_x_opposite(c: EllipticCurve, x: F, y1: F, y2: F)
    requires
        c.valid(),
        is_prime(c.modulus() as nat),
        x.valid(),
        y1.valid(),
        y2.valid(),
        x.p == c.modulus(),
        y1.p == c.modulus(),
        y2.p == c.modulus(),
        on_curve(c, Point::Fini(x, y1)),
        on_curve(c, Point::Fini(x, y2)),
        y1.x != y2.x,
    ensures
        y1.x as int == fneg(c.modulus() as int, y2.x as int),
{
    let pm = c.modulus();
    let p = pm as int;
    let y1v = y1.x as int;
    let y2v = y2.x as int;
    let xv = x.x as int;
    let av = c.a.x as int;
    let bv = c.b.x as int;
    let rhs = xv * xv * xv + av * xv + bv;
    // the two squares agree modulo p
    assert(cong(p, y1v * y1v - y2v * y2v, 0)) by {
        lemma_cong_sym(p, y2v * y2v, rhs);
        lemma_cong_trans(p, y1v * y1v, rhs, y2v * y2v);
        lemma_cong_refl(p, y2v * y2v);
        lemma_cong_sub(p, y1v * y1v, y2v * y2v, y2v * y2v, y2v * y2v);
    }
    // the difference of the ordinates is invertible
    let dd = (y1v - y2v) % p;
    assert(dd != 0) by {
        lemma_mod_equivalence(y1v, y2v, p);
        lemma_small_mod(y1.x as nat, pm as nat);
        lemma_small_mod(y2.x as nat, pm as nat);
    }
    lemma_prime_nonzero_coprime(pm as nat, dd as nat);
    lemma_coprime_inverse_exists(pm as nat, dd as nat);
    let w = choose|w: int| 0 <= w < p && #[trigger] fmul(p, dd, w) == 1;
    assert(cong(p, (y1v - y2v) * w, 1)) by {
        lemma_cong_mod(p, y1v - y2v);
        lemma_cong_sym(p, dd, y1v - y2v);
        lemma_cong_refl(p, w);
        lemma_cong_mul(p, y1v - y2v, dd, w, w);
        lemma_cong_mod(p, dd * w);
        lemma_cong_sym(p, (dd * w) % p, dd * w);
        lemma_cong_trans(p, (y1v - y2v) * w, dd * w, 1);
    }
    // multiply the vanishing difference of squares by the inverse
    assert(cong(p, y1v + y2v, 0)) by {
        lemma_cong_refl(p, y1v + y2v);
        lemma_cong_mul(p, y1v + y2v, y1v + y2v, (y1v - y2v) * w, 1);
        assert((y1v + y2v) * ((y1v - y2v) * w) == ((y1v * y1v - y2v * y2v)) * w)
            by (nonlinear_arith);
        lemma_cong_refl(p, w);
        lemma_cong_mul(p, y1v * y1v - y2v * y2v, 0, w, w);
        lemma_cong_sym(p, (y1v + y2v) * ((y1v - y2v) * w), (y1v + y2v) * 1);
        lemma_cong_trans(p, y1v + y2v, (y1v + y2v) * ((y1v - y2v) * w), 0 * w);
    }
    // hence the first ordinate is the reduced negation of the second
    assert(cong(p, y1v, fneg(p, y2v))) by {
        lemma_cong_refl(p, y2v);
        lemma_cong_sub(p, y1v + y2v, 0, y2v, y2v);
        lemma_fneg_cong(p, y2v);
        lemma_cong_sym(p, fneg(p, y2v), -y2v);
        lemma_cong_trans(p, y1v, -y2v, fneg(p, y2v));
    }
    lemma_cong_eq(p, y1v, fneg(p, y2v));
}

/// Law: every defined scalar multiple of a curve member is again a curve
/// member, and well formed.
pub proof fn lemma_mul_closure(c: EllipticCurve, pt: Point, k: nat)
    requires
        c.valid(),
        pt.ok(c.modulus()),
        on_curve(c, pt),
        mul_ok(c, pt, k),
    ensures
        on_curve(c, spec_mul(c, pt, k)),
        spec_mul(c, pt, k).ok(c.modulus()),
    decreases k,
{
    if k != 0 {
        lemma_mul_closure(c, pt, k / 2);
        let m2 = spec_mul(c, pt, k / 2);
        lemma_add_closure(c, m2, m2);
        lemma_spec_add_wf(c, m2, m2);
        if k % 2 != 0 {
            lemma_add_closure(c, spec_add(c, m2, m2), pt);
            lemma_spec_add_wf(c, spec_add(c, m2, m2), pt);
        }
    }
}

/// Over an odd prime modulus, scalar multiplication is defined on every
/// curve member and every scalar: each pair the recursion hands to the group
/// law is admissible.
pub proof fn lemma_mul_ok_prime(c: EllipticCurve, pt: Point, k: nat)
    requires
        c.valid(),
        is_prime(c.modulus() as nat),
        c.modulus() % 2 == 1,
        pt.ok(c.modulus()),
        on_curve(c, pt),
    ensures
        mul_ok(c, pt, k),
    decreases k,
{
    if k != 0 {
        lemma_mul_ok_prime(c, pt, k / 2);
        lemma_mul_closure(c, pt, k / 2);
        let m2 = spec_mul(c, pt, k / 2);
        lemma_add_ok_prime(c, m2, m2);
        lemma_add_closure(c, m2, m2);
        lemma_spec_add_wf(c, m2, m2);
        if k % 2 != 0 {
            let d = spec_add(c, m2, m2);
            match (d, pt) {
                (Point::Fini(xd, yd), Point::Fini(xp, yp)) => {
                    if xd.x == xp.x && yd.x != yp.x {
                        assert(xd == xp);
                        lemma_same_x_opposite(c, xd, yd, yp);
                    }
                },
                _ => {},
            }
            lemma_add_ok_prime(c, d, pt);
        }
    }
}

/// Law: the point at infinity is the identity of the group law, on either
/// side of any point.
pub proof fn lemma_add_identity(c: EllipticCurve, pt: Point)
    ensures
        spec_add(c, pt, Point::Infini) == pt,
        spec_add(c, Point::Infini, pt) == pt,
{
}

/// Law, restricted: for a scalar of one, two or three, halving-and-doubling
/// agrees with one further addition of the point:
/// `k * pt == (k - 1) * pt + pt`. The statement over every scalar amounts to
/// the associativity of the group law, which is not proved here; these are
/// the scalars whose two recursions coincide by unfolding alone.
pub proof fn lemma_mul_step_small(c: EllipticCurve, pt: Point, k: nat)
    requires
        1 <= k <= 3,
    ensures
        spec_mul(c, pt, k) == spec_add(c, spec_mul(c, pt, (k - 1) as nat), pt),
{
    lemma_add_identity(c, pt);
    lemma_add_identity(c, Point::Infini);
    assert(spec_mul(c, pt, 0) == Point::Infini);
    assert(spec_mul(c, pt, 1) == spec_add(c, spec_add(c, Point::Infini, Point::Infini), pt));
    assert(spec_mul(c, pt, 1) == pt);
    if k == 2 {
        assert(spec_mul(c, pt, 2) == spec_add(c, pt, pt));
    } else if k == 3 {
        assert(spec_mul(c, pt, 3) == spec_add(c, spec_add(c, pt, pt), pt));
        assert(spec_mul(c, pt, 2) == spec_add(c, pt, pt));
    }
}

/// Law: a finite point and its reflection across the x axis add to the point
/// at infinity. Over an even modulus a point whose doubled ordinate is the
/// modulus is its own reflection yet doubles to a finite point, so the law is
/// stated for odd moduli, which cover every odd prime field.
pub proof fn lemma_add_opposite(c: EllipticCurve, x: F, y: F, yn: F)
    requires
        x.valid(),
        y.valid(),
        yn.valid(),
        x.p == c.modulus(),
        y.p == c.modulus(),
        yn.p == c.modulus(),
        c.modulus() % 2 == 1,
        yn.x == fneg(c.modulus() as int, y.x as int),
    ensures
        spec_add(c, Point::Fini(x, y), Point::Fini(x, yn)) == Point::Infini,
{
    let p = c.modulus() as int;
    if y.x == 0 {
        lemma_mod_self_0(p);
    } else {
        lemma_small_mod((p - y.x) as nat, p as nat);
        assert(yn.x as int == p - y.x);
        assert(y.x as int != p - y.x);
    }
}

} // verus!
