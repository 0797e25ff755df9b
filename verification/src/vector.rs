//! Three-dimensional vectors over exact rationals.

use vstd::prelude::*;
use crate::rational::{
    Rat, rat_wf, pv, padd, psub, pmul, pdiv, pneg, rat_has, add_fits, sub_fits, mul_fits,
    div_fits, in_rng, SQRT_SCALE, sqrt_lb, sqrt_ub, lemma_padd_peq, lemma_peq_trans,
    lemma_sqrt_bounds_transfer,
};

verus! {

/// A 3-dimensional vector with exact rational components.
#[derive(Clone, Copy, Debug, PartialEq, Eq, Structural)]
pub struct Vector3 {
    pub x: Rat,
    pub y: Rat,
    pub z: Rat,
}

/// All components are well-formed rationals.
pub open spec fn v3_wf(v: Vector3) -> bool {
    &&& rat_wf(v.x)
    &&& rat_wf(v.y)
    &&& rat_wf(v.z)
}

/// Every component has a numerator of magnitude at most `n` and a
/// denominator of at most `d`.
pub open spec fn v3_small(v: Vector3, n: int, d: int) -> bool {
    &&& vstd::math::abs(v.x.num as int) <= n && v.x.den as int <= d
    &&& vstd::math::abs(v.y.num as int) <= n && v.y.den as int <= d
    &&& vstd::math::abs(v.z.num as int) <= n && v.z.den as int <= d
}

/// Input envelope under which [`Vector3::dot`] is guaranteed to succeed.
pub open spec fn dot_env(v: Vector3) -> bool {
    v3_small(v, 0x100000000, 0x1000)
}

/// Input envelope under which [`Vector3::mag`] is guaranteed to succeed.
pub open spec fn mag_env(v: Vector3) -> bool {
    v3_small(v, 0x400000, 0x400)
}

/// Exact value of the dot product of `a` and `b` as a fraction pair.
pub open spec fn pdot(a: Vector3, b: Vector3) -> (int, int) {
    padd(
        padd(pmul(pv(a.x), pv(b.x)), pmul(pv(a.y), pv(b.y))),
        pmul(pv(a.z), pv(b.z)),
    )
}

/// `m` is the floor-style square root of the squared length of `v`.
pub open spec fn is_mag_of(m: Rat, v: Vector3) -> bool {
    &&& rat_wf(m)
    &&& m.num >= 0
    &&& sqrt_lb(m, pdot(v, v))
    &&& sqrt_ub(m, pdot(v, v), SQRT_SCALE as int)
}

/// `r` is `v` divided componentwise by the scalar `m`.
pub open spec fn is_scaled_down(r: Vector3, v: Vector3, m: Rat) -> bool {
    &&& rat_has(r.x, pdiv(pv(v.x), pv(m)))
    &&& rat_has(r.y, pdiv(pv(v.y), pv(m)))
    &&& rat_has(r.z, pdiv(pv(v.z), pv(m)))
}

/// Witness predicate for [`Vector3::unit`]: `m` is the computed magnitude
/// and `r` is `v` scaled down by it.
pub open spec fn unit_rel(v: Vector3, m: Rat, r: Vector3) -> bool {
    &&& is_mag_of(m, v)
    &&& m.num > 0
    &&& v3_wf(r)
    &&& is_scaled_down(r, v, m)
}

impl Vector3 {
    /// New vector with the given coordinates.
    pub fn new(x: Rat, y: Rat, z: Rat) -> (r: Vector3)
        ensures
            r.x == x,
            r.y == y,
            r.z == z,
    {
        Vector3 { x, y, z }
    }

    /// Vector with all coordinates equal to zero.
    pub fn null_vector() -> (r: Vector3)
        ensures
            v3_wf(r),
            r.x.num == 0 && r.y.num == 0 && r.z.num == 0,
            r.x.den == 1 && r.y.den == 1 && r.z.den == 1,
    {
        Vector3 { x: Rat::zero(), y: Rat::zero(), z: Rat::zero() }
    }

    /// Exact componentwise negation; never fails.
    pub fn neg(self) -> (r: Vector3)
        requires
            v3_wf(self),
        ensures
            v3_wf(r),
            rat_has(r.x, pneg(pv(self.x))),
            rat_has(r.y, pneg(pv(self.y))),
            rat_has(r.z, pneg(pv(self.z))),
    {
        Vector3 { x: self.x.neg(), y: self.y.neg(), z: self.z.neg() }
    }

    /// Exact componentwise sum; `None` only on `i128` overflow.
    pub fn add(self, rhs: Vector3) -> (r: Option<Vector3>)
        requires
            v3_wf(self),
            v3_wf(rhs),
        ensures
            r is Some ==> v3_wf(r->Some_0),
            r is Some ==> rat_has(r->Some_0.x, padd(pv(self.x), pv(rhs.x))),
            r is Some ==> rat_has(r->Some_0.y, padd(pv(self.y), pv(rhs.y))),
            r is Some ==> rat_has(r->Some_0.z, padd(pv(self.z), pv(rhs.z))),
            add_fits(pv(self.x), pv(rhs.x)) && add_fits(pv(self.y), pv(rhs.y))
                && add_fits(pv(self.z), pv(rhs.z)) ==> r is Some,
            r is None ==> !(add_fits(pv(self.x), pv(rhs.x)) && add_fits(pv(self.y), pv(rhs.y))
                && add_fits(pv(self.z), pv(rhs.z))),
    {
        let x = match self.x.add(rhs.x) {
            Some(v) => v,
            None => { return None; },
        };
        let y = match self.y.add(rhs.y) {
            Some(v) => v,
            None => { return None; },
        };
        let z = match self.z.add(rhs.z) {
            Some(v) => v,
            None => { return None; },
        };
        Some(Vector3 { x, y, z })
    }

    /// Exact componentwise difference; `None` only on `i128` overflow.
    pub fn sub(self, rhs: Vector3) -> (r: Option<Vector3>)
        requires
            v3_wf(self),
            v3_wf(rhs),
        ensures
            r is Some ==> v3_wf(r->Some_0),
            r is Some ==> rat_has(r->Some_0.x, psub(pv(self.x), pv(rhs.x))),
            r is Some ==> rat_has(r->Some_0.y, psub(pv(self.y), pv(rhs.y))),
            r is Some ==> rat_has(r->Some_0.z, psub(pv(self.z), pv(rhs.z))),
            r is Some ==> r->Some_0.x.den as int <= self.x.den as int * rhs.x.den as int
                && r->Some_0.y.den as int <= self.y.den as int * rhs.y.den as int
                && r->Some_0.z.den as int <= self.z.den as int * rhs.z.den as int,
            r is Some ==> vstd::math::abs(r->Some_0.x.num as int)
                <= vstd::math::abs(self.x.num as int) * rhs.x.den
                    + vstd::math::abs(rhs.x.num as int) * self.x.den
                && vstd::math::abs(r->Some_0.y.num as int)
                    <= vstd::math::abs(self.y.num as int) * rhs.y.den
                        + vstd::math::abs(rhs.y.num as int) * self.y.den
                && vstd::math::abs(r->Some_0.z.num as int)
                    <= vstd::math::abs(self.z.num as int) * rhs.z.den
                        + vstd::math::abs(rhs.z.num as int) * self.z.den,
            sub_fits(pv(self.x), pv(rhs.x)) && sub_fits(pv(self.y), pv(rhs.y))
                && sub_fits(pv(self.z), pv(rhs.z)) ==> r is Some,
            r is None ==> !(sub_fits(pv(self.x), pv(rhs.x)) && sub_fits(pv(self.y), pv(rhs.y))
                && sub_fits(pv(self.z), pv(rhs.z))),
    {
        let x = match self.x.sub(rhs.x) {
            Some(v) => v,
            None => { return None; },
        };
        let y = match self.y.sub(rhs.y) {
            Some(v) => v,
            None => { return None; },
        };
        let z = match self.z.sub(rhs.z) {
            Some(v) => v,
            None => { return None; },
        };
        Some(Vector3 { x, y, z })
    }

    /// Exact componentwise scaling by a rational; `None` only on overflow.
    pub fn scale(self, k: Rat) -> (r: Option<Vector3>)
        requires
            v3_wf(self),
            rat_wf(k),
        ensures
            r is Some ==> v3_wf(r->Some_0),
            r is Some ==> rat_has(r->Some_0.x, pmul(pv(self.x), pv(k))),
            r is Some ==> rat_has(r->Some_0.y, pmul(pv(self.y), pv(k))),
            r is Some ==> rat_has(r->Some_0.z, pmul(pv(self.z), pv(k))),
            mul_fits(pv(self.x), pv(k)) && mul_fits(pv(self.y), pv(k))
                && mul_fits(pv(self.z), pv(k)) ==> r is Some,
            r is None ==> !(mul_fits(pv(self.x), pv(k)) && mul_fits(pv(self.y), pv(k))
                && mul_fits(pv(self.z), pv(k))),
    {
        let x = match self.x.mul(k) {
            Some(v) => v,
            None => { return None; },
        };
        let y = match self.y.mul(k) {
            Some(v) => v,
            None => { return None; },
        };
        let z = match self.z.mul(k) {
            Some(v) => v,
            None => { return None; },
        };
        Some(Vector3 { x, y, z })
    }

    /// Exact componentwise division by a rational; `None` on a zero divisor
    /// or on overflow.
    pub fn scale_div(self, k: Rat) -> (r: Option<Vector3>)
        requires
            v3_wf(self),
            rat_wf(k),
        ensures
            r is Some ==> v3_wf(r->Some_0),
            r is Some ==> is_scaled_down(r->Some_0, self, k),
            k.num == 0 ==> r is None,
            k.num != 0 && div_fits(pv(self.x), pv(k)) && div_fits(pv(self.y), pv(k))
                && div_fits(pv(self.z), pv(k)) ==> r is Some,
            r is None ==> k.num == 0 || !(div_fits(pv(self.x), pv(k))
                && div_fits(pv(self.y), pv(k)) && div_fits(pv(self.z), pv(k))),
    {
        let x = match self.x.div(k) {
            Some(v) => v,
            None => { return None; },
        };
        let y = match self.y.div(k) {
            Some(v) => v,
            None => { return None; },
        };
        let z = match self.z.div(k) {
            Some(v) => v,
            None => { return None; },
        };
        Some(Vector3 { x, y, z })
    }

    /// Exact dot product; `None` only on `i128` overflow, and never within
    /// the [`dot_env`] envelope.
    pub fn dot(&self, v: &Vector3) -> (r: Option<Rat>)
        requires
            v3_wf(*self),
            v3_wf(*v),
        ensures
            r is Some ==> rat_wf(r->Some_0),
            r is Some ==> rat_has(r->Some_0, pdot(*self, *v)),
            r is Some ==> r->Some_0.den as int
                <= ((self.x.den as int * v.x.den as int) * (self.y.den as int * v.y.den as int))
                    * (self.z.den as int * v.z.den as int),
            dot_env(*self) && dot_env(*v) ==> r is Some,
            mag_env(*self) && mag_env(*v) ==> r is Some
                && vstd::math::abs(r->Some_0.num as int) < 0x4000000000000000000000,
    {
        let ghost small: bool = mag_env(*self) && mag_env(*v);
        let ghost wide: bool = dot_env(*self) && dot_env(*v);
        let m1 = match self.x.mul(v.x) {
            Some(w) => w,
            None => {
                proof { lemma_comp_mul_fits(self.x, v.x, wide, small); }
                return None;
            },
        };
        let m2 = match self.y.mul(v.y) {
            Some(w) => w,
            None => {
                proof { lemma_comp_mul_fits(self.y, v.y, wide, small); }
                return None;
            },
        };
        let m3 = match self.z.mul(v.z) {
            Some(w) => w,
            None => {
                proof { lemma_comp_mul_fits(self.z, v.z, wide, small); }
                return None;
            },
        };
        proof {
            if wide {
                lemma_prod_bounds(self.x, v.x, m1, 0x100000000, 0x1000);
                lemma_prod_bounds(self.y, v.y, m2, 0x100000000, 0x1000);
                lemma_prod_bounds(self.z, v.z, m3, 0x100000000, 0x1000);
            }
            if small {
                lemma_prod_bounds(self.x, v.x, m1, 0x400000, 0x400);
                lemma_prod_bounds(self.y, v.y, m2, 0x400000, 0x400);
                lemma_prod_bounds(self.z, v.z, m3, 0x400000, 0x400);
            }
        }
        let s1 = match m1.add(m2) {
            Some(w) => w,
            None => {
                proof {
                    if wide {
                        lemma_sum_fits(m1, m2, 0x10000000000000000, 0x1000000);
                    }
                    if small {
                        lemma_sum_fits(m1, m2, 0x100000000000, 0x100000);
                    }
                }
                return None;
            },
        };
        proof {
            if wide {
                lemma_sum_bounds(m1, m2, s1, 0x10000000000000000, 0x1000000);
            }
            if small {
                lemma_sum_bounds(m1, m2, s1, 0x100000000000, 0x100000);
            }
        }
        let s2 = match s1.add(m3) {
            Some(w) => w,
            None => {
                proof {
                    if wide {
                        lemma_sum_fits2(s1, m3, 0x20000000000000000000000, 0x1000000000000,
                            0x10000000000000000, 0x1000000);
                    }
                    if small {
                        lemma_sum_fits2(s1, m3, 0x20000000000000000, 0x10000000000,
                            0x100000000000, 0x100000);
                    }
                }
                return None;
            },
        };
        proof {
            lemma_padd_peq(pv(m1), pmul(pv(self.x), pv(v.x)), pv(m2), pmul(pv(self.y), pv(v.y)));
            lemma_peq_trans(
                pv(s1),
                padd(pv(m1), pv(m2)),
                padd(pmul(pv(self.x), pv(v.x)), pmul(pv(self.y), pv(v.y))),
            );
            lemma_padd_peq(
                pv(s1),
                padd(pmul(pv(self.x), pv(v.x)), pmul(pv(self.y), pv(v.y))),
                pv(m3),
                pmul(pv(self.z), pv(v.z)),
            );
            lemma_peq_trans(pv(s2), padd(pv(s1), pv(m3)), pdot(*self, *v));
            assert(s1.den as int <= (self.x.den as int * v.x.den as int)
                * (self.y.den as int * v.y.den as int)) by (nonlinear_arith)
                requires
                    s1.den as int <= m1.den as int * m2.den as int,
                    m1.den as int <= self.x.den as int * v.x.den as int,
                    m2.den as int <= self.y.den as int * v.y.den as int,
                    m1.den > 0 && m2.den > 0,
                    self.x.den > 0 && v.x.den > 0 && self.y.den > 0 && v.y.den > 0,
            ;
            assert(s2.den as int <= ((self.x.den as int * v.x.den as int)
                * (self.y.den as int * v.y.den as int))
                * (self.z.den as int * v.z.den as int)) by (nonlinear_arith)
                requires
                    s2.den as int <= s1.den as int * m3.den as int,
                    s1.den as int <= (self.x.den as int * v.x.den as int)
                        * (self.y.den as int * v.y.den as int),
                    m3.den as int <= self.z.den as int * v.z.den as int,
                    s1.den > 0 && m3.den > 0,
                    self.x.den > 0 && v.x.den > 0 && self.y.den > 0 && v.y.den > 0
                        && self.z.den > 0 && v.z.den > 0,
            ;
            if small {
                lemma_sum_bounds2(s1, m3, s2, 0x20000000000000000, 0x10000000000,
                    0x100000000000, 0x100000);
            }
        }
        Some(s2)
    }

    /// Magnitude of the vector on the `1 / SQRT_SCALE` grid: the result `m`
    /// satisfies `m^2 <= self . self < (m + 1/SQRT_SCALE)^2`. `None` only on
    /// overflow, and never within the [`mag_env`] envelope.
    pub fn mag(&self) -> (r: Option<Rat>)
        requires
            v3_wf(*self),
        ensures
            r is Some ==> is_mag_of(r->Some_0, *self),
            r is Some ==> r->Some_0.den == SQRT_SCALE,
            mag_env(*self) ==> r is Some,
    {
        let ghost small: bool = mag_env(*self);
        let d = match self.dot(self) {
            Some(w) => w,
            None => { return None; },
        };
        proof {
            lemma_dot_self_nonneg(d, *self);
        }
        let m = match d.sqrt_floor() {
            Some(w) => w,
            None => {
                proof {
                    if small {
                        assert(in_rng(pv(d).0 * ((SQRT_SCALE as int) * (SQRT_SCALE as int))))
                            by (nonlinear_arith)
                            requires
                                0 <= d.num < 0x4000000000000000000000,
                                SQRT_SCALE == 1000000,
                                in_rng(pv(d).0 * ((SQRT_SCALE as int) * (SQRT_SCALE as int)))
                                    == (i128::MIN
                                    < (d.num as int) * ((SQRT_SCALE as int) * (SQRT_SCALE as int))
                                    <= i128::MAX),
                        ;
                    }
                }
                return None;
            },
        };
        proof {
            lemma_sqrt_bounds_transfer(m, d, pdot(*self, *self), SQRT_SCALE as int);
        }
        Some(m)
    }

    /// Vector with the same direction but unit length (within the accuracy
    /// of the floor square root). `None` when the magnitude rounds to zero
    /// or on overflow; guaranteed to succeed within [`mag_env`] when the
    /// squared length is at least one.
    pub fn unit(&self) -> (r: Option<Vector3>)
        requires
            v3_wf(*self),
        ensures
            r is Some ==> exists|m: Rat| unit_rel(*self, m, r->Some_0),
            mag_env(*self) && pdot(*self, *self).0 >= pdot(*self, *self).1 ==> r is Some,
    {
        let ghost good: bool = mag_env(*self) && pdot(*self, *self).0 >= pdot(*self, *self).1;
        let m = match self.mag() {
            Some(w) => w,
            None => { return None; },
        };
        if m.num == 0 {
            proof {
                if good {
                    lemma_mag_not_zero(m, *self);
                }
            }
            return None;
        }
        proof {
            if good {
                lemma_unit_div_fits(m, *self);
            }
        }
        let out = match self.scale_div(m) {
            Some(w) => w,
            None => { return None; },
        };
        proof {
            assert(unit_rel(*self, m, out));
        }
        Some(out)
    }
}

/// Within the given componentwise bounds, the product of two components
/// fits in `i128`.
proof fn lemma_comp_mul_fits(a: Rat, b: Rat, wide: bool, small: bool)
    requires
        rat_wf(a),
        rat_wf(b),
        wide ==> vstd::math::abs(a.num as int) <= 0x100000000 && a.den <= 0x1000
            && vstd::math::abs(b.num as int) <= 0x100000000 && b.den <= 0x1000,
        small ==> vstd::math::abs(a.num as int) <= 0x400000 && a.den <= 0x400
            && vstd::math::abs(b.num as int) <= 0x400000 && b.den <= 0x400,
    ensures
        wide || small ==> mul_fits(pv(a), pv(b)),
{
    if wide || small {
        assert(in_rng(a.num as int * b.num as int) && in_rng(a.den as int * b.den as int))
            by (nonlinear_arith)
            requires
                vstd::math::abs(a.num as int) <= 0x100000000,
                vstd::math::abs(b.num as int) <= 0x100000000,
                0 < a.den <= 0x1000,
                0 < b.den <= 0x1000,
                in_rng(a.num as int * b.num as int) == (i128::MIN < a.num as int * b.num as int
                    <= i128::MAX),
                in_rng(a.den as int * b.den as int) == (i128::MIN < a.den as int * b.den as int
                    <= i128::MAX),
        ;
    }
}

/// Bounds on a product of two bounded rationals.
proof fn lemma_prod_bounds(a: Rat, b: Rat, m: Rat, n: int, d: int)
    requires
        rat_wf(a),
        rat_wf(b),
        vstd::math::abs(a.num as int) <= n && a.den <= d,
        vstd::math::abs(b.num as int) <= n && b.den <= d,
        vstd::math::abs(m.num as int) <= vstd::math::abs(a.num as int * b.num as int),
        m.den as int <= a.den as int * b.den as int,
        n >= 0,
        d >= 1,
    ensures
        vstd::math::abs(m.num as int) <= n * n,
        m.den as int <= d * d,
{
    assert(vstd::math::abs(a.num as int * b.num as int)
        == vstd::math::abs(a.num as int) * vstd::math::abs(b.num as int)) by (nonlinear_arith);
    assert(vstd::math::abs(a.num as int * b.num as int) <= n * n
        && a.den as int * b.den as int <= d * d) by (nonlinear_arith)
        requires
            vstd::math::abs(a.num as int) <= n,
            vstd::math::abs(b.num as int) <= n,
            0 < a.den <= d,
            0 < b.den <= d,
            n >= 0,
            vstd::math::abs(a.num as int * b.num as int)
                == vstd::math::abs(a.num as int) * vstd::math::abs(b.num as int),
    ;
}

/// Within the given componentwise bounds, the sum of two bounded rationals
/// fits in `i128`.
proof fn lemma_sum_fits(a: Rat, b: Rat, n: int, d: int)
    requires
        rat_wf(a),
        rat_wf(b),
        vstd::math::abs(a.num as int) <= n && a.den <= d,
        vstd::math::abs(b.num as int) <= n && b.den <= d,
        n >= 0,
        d >= 1,
        2 * (n * d) <= i128::MAX,
        d * d <= i128::MAX,
    ensures
        add_fits(pv(a), pv(b)),
{
    assert(vstd::math::abs(a.num as int * b.den as int) <= n * d
        && vstd::math::abs(b.num as int * a.den as int) <= n * d
        && a.den as int * b.den as int <= d * d
        && a.den as int * b.den as int >= 1) by (nonlinear_arith)
        requires
            vstd::math::abs(a.num as int) <= n,
            vstd::math::abs(b.num as int) <= n,
            0 < a.den <= d,
            0 < b.den <= d,
            n >= 0,
    ;
}

/// [`lemma_sum_fits`] with different bounds for the two operands.
proof fn lemma_sum_fits2(a: Rat, b: Rat, na: int, da: int, nb: int, db: int)
    requires
        rat_wf(a),
        rat_wf(b),
        vstd::math::abs(a.num as int) <= na && a.den <= da,
        vstd::math::abs(b.num as int) <= nb && b.den <= db,
        na >= 0,
        nb >= 0,
        da >= 1,
        db >= 1,
        na * db + nb * da <= i128::MAX,
        da * db <= i128::MAX,
    ensures
        add_fits(pv(a), pv(b)),
{
    assert(vstd::math::abs(a.num as int * b.den as int) <= na * db
        && vstd::math::abs(b.num as int * a.den as int) <= nb * da
        && a.den as int * b.den as int <= da * db
        && a.den as int * b.den as int >= 1) by (nonlinear_arith)
        requires
            vstd::math::abs(a.num as int) <= na,
            vstd::math::abs(b.num as int) <= nb,
            0 < a.den <= da,
            0 < b.den <= db,
            na >= 0,
            nb >= 0,
    ;
}

/// Bounds on a sum of two rationals bounded by the same envelope.
proof fn lemma_sum_bounds(a: Rat, b: Rat, s: Rat, n: int, d: int)
    requires
        rat_wf(a),
        rat_wf(b),
        vstd::math::abs(a.num as int) <= n && a.den <= d,
        vstd::math::abs(b.num as int) <= n && b.den <= d,
        vstd::math::abs(s.num as int) <= vstd::math::abs(a.num as int) * b.den
            + vstd::math::abs(b.num as int) * a.den,
        s.den as int <= a.den as int * b.den as int,
        n >= 0,
        d >= 1,
    ensures
        vstd::math::abs(s.num as int) <= 2 * (n * d),
        s.den as int <= d * d,
{
    assert(vstd::math::abs(a.num as int) * b.den <= n * d
        && vstd::math::abs(b.num as int) * a.den <= n * d
        && a.den as int * b.den as int <= d * d) by (nonlinear_arith)
        requires
            vstd::math::abs(a.num as int) <= n,
            vstd::math::abs(b.num as int) <= n,
            0 < a.den <= d,
            0 < b.den <= d,
            n >= 0,
    ;
}

/// [`lemma_sum_bounds`] with different bounds for the two operands.
proof fn lemma_sum_bounds2(a: Rat, b: Rat, s: Rat, na: int, da: int, nb: int, db: int)
    requires
        rat_wf(a),
        rat_wf(b),
        vstd::math::abs(a.num as int) <= na && a.den <= da,
        vstd::math::abs(b.num as int) <= nb && b.den <= db,
        vstd::math::abs(s.num as int) <= vstd::math::abs(a.num as int) * b.den
            + vstd::math::abs(b.num as int) * a.den,
        s.den as int <= a.den as int * b.den as int,
        na >= 0,
        nb >= 0,
        da >= 1,
        db >= 1,
    ensures
        vstd::math::abs(s.num as int) <= na * db + nb * da,
        s.den as int <= da * db,
{
    assert(vstd::math::abs(a.num as int) * b.den <= na * db
        && vstd::math::abs(b.num as int) * a.den <= nb * da
        && a.den as int * b.den as int <= da * db) by (nonlinear_arith)
        requires
            vstd::math::abs(a.num as int) <= na,
            vstd::math::abs(b.num as int) <= nb,
            0 < a.den <= da,
            0 < b.den <= db,
            na >= 0,
            nb >= 0,
    ;
}

/// The exact squared length of a vector is a nonnegative fraction.
pub proof fn lemma_pdot_self_sign(v: Vector3)
    requires
        v3_wf(v),
    ensures
        pdot(v, v).0 >= 0,
        pdot(v, v).1 > 0,
{
    let sx = pmul(pv(v.x), pv(v.x));
    let sy = pmul(pv(v.y), pv(v.y));
    let sz = pmul(pv(v.z), pv(v.z));
    assert(sx.0 >= 0 && sx.1 > 0) by (nonlinear_arith)
        requires sx == pmul(pv(v.x), pv(v.x)) && v.x.den > 0;
    assert(sy.0 >= 0 && sy.1 > 0) by (nonlinear_arith)
        requires sy == pmul(pv(v.y), pv(v.y)) && v.y.den > 0;
    assert(sz.0 >= 0 && sz.1 > 0) by (nonlinear_arith)
        requires sz == pmul(pv(v.z), pv(v.z)) && v.z.den > 0;
    let a = padd(sx, sy);
    assert(a.0 >= 0 && a.1 > 0) by (nonlinear_arith)
        requires
            a == padd(sx, sy),
            sx.0 >= 0 && sx.1 > 0,
            sy.0 >= 0 && sy.1 > 0,
    ;
    assert(pdot(v, v).0 >= 0 && pdot(v, v).1 > 0) by (nonlinear_arith)
        requires
            pdot(v, v) == padd(a, sz),
            a.0 >= 0 && a.1 > 0,
            sz.0 >= 0 && sz.1 > 0,
    ;
}

/// A rational carrying the value of a dot product of a vector with itself
/// is nonnegative.
pub proof fn lemma_dot_self_nonneg(d: Rat, v: Vector3)
    requires
        rat_wf(d),
        v3_wf(v),
        rat_has(d, pdot(v, v)),
    ensures
        d.num >= 0,
        pdot(v, v).0 >= 0,
        pdot(v, v).1 > 0,
{
    let p = pdot(v, v);
    lemma_pdot_self_sign(v);
    assert(d.num >= 0) by (nonlinear_arith)
        requires
            d.num * p.1 == p.0 * d.den,
            p.0 >= 0,
            p.1 > 0,
            d.den > 0,
    ;
}

/// If the squared length is at least one, the floor square root cannot be
/// zero.
proof fn lemma_mag_not_zero(m: Rat, v: Vector3)
    requires
        rat_wf(m),
        v3_wf(v),
        m.num == 0,
        sqrt_ub(m, pdot(v, v), SQRT_SCALE as int),
    ensures
        pdot(v, v).0 < pdot(v, v).1,
{
    let p = pdot(v, v);
    let s = SQRT_SCALE as int;
    lemma_pdot_self_sign(v);
    assert(p.0 * ((m.den * s) * (m.den * s)) < (m.den * m.den) * p.1) by (nonlinear_arith)
        requires
            p.0 * ((m.den * s) * (m.den * s)) < ((m.num * s + m.den) * (m.num * s + m.den)) * p.1,
            m.num == 0,
    ;
    assert(p.0 < p.1) by (nonlinear_arith)
        requires
            p.0 * ((m.den * s) * (m.den * s)) < (m.den * m.den) * p.1,
            p.0 >= 0,
            p.1 > 0,
            m.den > 0,
            s >= 1,
    ;
}

/// Within [`mag_env`], dividing the components by the computed magnitude
/// fits in `i128`.
proof fn lemma_unit_div_fits(m: Rat, v: Vector3)
    requires
        rat_wf(m),
        v3_wf(v),
        mag_env(v),
        m.num >= 1,
        m.den == SQRT_SCALE,
        sqrt_lb(m, pdot(v, v)),
    ensures
        div_fits(pv(v.x), pv(m)),
        div_fits(pv(v.y), pv(m)),
        div_fits(pv(v.z), pv(m)),
{
    // numerator of the dot is bounded within the envelope, so m.num is too
    let p = pdot(v, v);
    lemma_dot_num_bound(v);
    assert(m.num <= 0x800000000000000000) by (nonlinear_arith)
        requires
            (m.num * m.num) * p.1 <= p.0 * (m.den * m.den),
            m.den == SQRT_SCALE,
            SQRT_SCALE == 1000000,
            0 <= p.0 < 0x4000000000000000000000,
            p.1 >= 1,
            m.num >= 0,
    ;
    assert(div_fits(pv(v.x), pv(m)) && div_fits(pv(v.y), pv(m)) && div_fits(pv(v.z), pv(m)))
        by (nonlinear_arith)
        requires
            vstd::math::abs(v.x.num as int) <= 0x400000 && 0 < v.x.den <= 0x400,
            vstd::math::abs(v.y.num as int) <= 0x400000 && 0 < v.y.den <= 0x400,
            vstd::math::abs(v.z.num as int) <= 0x400000 && 0 < v.z.den <= 0x400,
            1 <= m.num <= 0x800000000000000000,
            m.den == 1000000,
            div_fits(pv(v.x), pv(m)) == (in_rng(v.x.num as int * m.den as int)
                && in_rng(v.x.den as int * m.num as int)),
            div_fits(pv(v.y), pv(m)) == (in_rng(v.y.num as int * m.den as int)
                && in_rng(v.y.den as int * m.num as int)),
            div_fits(pv(v.z), pv(m)) == (in_rng(v.z.num as int * m.den as int)
                && in_rng(v.z.den as int * m.num as int)),
            in_rng(v.x.num as int * m.den as int) == (i128::MIN
                < v.x.num as int * m.den as int <= i128::MAX),
            in_rng(v.x.den as int * m.num as int) == (i128::MIN
                < v.x.den as int * m.num as int <= i128::MAX),
            in_rng(v.y.num as int * m.den as int) == (i128::MIN
                < v.y.num as int * m.den as int <= i128::MAX),
            in_rng(v.y.den as int * m.num as int) == (i128::MIN
                < v.y.den as int * m.num as int <= i128::MAX),
            in_rng(v.z.num as int * m.den as int) == (i128::MIN
                < v.z.num as int * m.den as int <= i128::MAX),
            in_rng(v.z.den as int * m.num as int) == (i128::MIN
                < v.z.den as int * m.num as int <= i128::MAX),
    ;
}

/// Within [`mag_env`], the numerator of the dot of a vector with itself is
/// bounded.
proof fn lemma_dot_num_bound(v: Vector3)
    requires
        v3_wf(v),
        mag_env(v),
    ensures
        0 <= pdot(v, v).0 < 0x4000000000000000000000,
        1 <= pdot(v, v).1,
{
    let sx = pmul(pv(v.x), pv(v.x));
    let sy = pmul(pv(v.y), pv(v.y));
    let sz = pmul(pv(v.z), pv(v.z));
    assert(0 <= sx.0 <= 0x100000000000 && 0 < sx.1 <= 0x100000) by (nonlinear_arith)
        requires
            sx == pmul(pv(v.x), pv(v.x)),
            vstd::math::abs(v.x.num as int) <= 0x400000 && 0 < v.x.den <= 0x400,
    ;
    assert(0 <= sy.0 <= 0x100000000000 && 0 < sy.1 <= 0x100000) by (nonlinear_arith)
        requires
            sy == pmul(pv(v.y), pv(v.y)),
            vstd::math::abs(v.y.num as int) <= 0x400000 && 0 < v.y.den <= 0x400,
    ;
    assert(0 <= sz.0 <= 0x100000000000 && 0 < sz.1 <= 0x100000) by (nonlinear_arith)
        requires
            sz == pmul(pv(v.z), pv(v.z)),
            vstd::math::abs(v.z.num as int) <= 0x400000 && 0 < v.z.den <= 0x400,
    ;
    let a = padd(sx, sy);
    assert(0 <= a.0 <= 0x20000000000000000 && 0 < a.1 <= 0x10000000000) by (nonlinear_arith)
        requires
            a == padd(sx, sy),
            0 <= sx.0 <= 0x100000000000 && 0 < sx.1 <= 0x100000,
            0 <= sy.0 <= 0x100000000000 && 0 < sy.1 <= 0x100000,
    ;
    assert(0 <= pdot(v, v).0 < 0x4000000000000000000000 && 1 <= pdot(v, v).1)
        by (nonlinear_arith)
        requires
            pdot(v, v) == padd(a, sz),
            0 <= a.0 <= 0x20000000000000000 && 0 < a.1 <= 0x10000000000,
            0 <= sz.0 <= 0x100000000000 && 0 < sz.1 <= 0x100000,
    ;
}

} // verus!
