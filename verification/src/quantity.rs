//! Dimensional quantity algebra.
//!
//! A dimension is a triple of exponents over the three base units (meter,
//! second, kilogram). Quantities pair an exact rational carrier — a scalar
//! or a 3-vector — with a dimension; sums, differences and comparisons
//! demand equal dimensions, while products, quotients and powers combine
//! them.

use vstd::prelude::*;
use crate::rational::{
    Rat, rat_wf, pv, padd, psub, pmul, pdiv, rat_has, peq, ple, add_fits, sub_fits, mul_fits,
    div_fits, in_rng, ppow, pinv, pow_fits, SQRT_SCALE, lemma_peq_trans, lemma_psub_peq,
    lemma_pmul_peq, lemma_pdiv_peq, lemma_padd_psub_cancel, lemma_pmul_pdiv_cancel,
    lemma_pdiv_pmul_cancel,
};
use crate::vector::{Vector3, v3_wf, mag_env, is_mag_of, pdot};

verus! {

/// Exponents of the three base units: a value of dimension
/// `m^meters s^seconds kg^kilograms`.
#[derive(Clone, Copy, Debug, PartialEq, Eq, Structural)]
pub struct SI {
    pub meters: i64,
    pub seconds: i64,
    pub kilograms: i64,
}

/// `c` is the componentwise sum of the exponent triples `a` and `b`.
pub open spec fn si_is_sum(c: SI, a: SI, b: SI) -> bool {
    &&& c.meters == a.meters + b.meters
    &&& c.seconds == a.seconds + b.seconds
    &&& c.kilograms == a.kilograms + b.kilograms
}

/// `c` is the componentwise difference of the exponent triples `a` and `b`.
pub open spec fn si_is_diff(c: SI, a: SI, b: SI) -> bool {
    &&& c.meters == a.meters - b.meters
    &&& c.seconds == a.seconds - b.seconds
    &&& c.kilograms == a.kilograms - b.kilograms
}

/// `c` is the exponent triple `a` with every exponent multiplied by `x`.
pub open spec fn si_is_scaled(c: SI, a: SI, x: int) -> bool {
    &&& c.meters == a.meters * x
    &&& c.seconds == a.seconds * x
    &&& c.kilograms == a.kilograms * x
}

/// `x` is representable as an `i64` exponent.
pub open spec fn si_fits(x: int) -> bool {
    i64::MIN <= x <= i64::MAX
}

/// The componentwise sum of `a` and `b` fits in `i64`.
pub open spec fn si_sum_fits(a: SI, b: SI) -> bool {
    &&& si_fits(a.meters + b.meters)
    &&& si_fits(a.seconds + b.seconds)
    &&& si_fits(a.kilograms + b.kilograms)
}

/// The componentwise difference of `a` and `b` fits in `i64`.
pub open spec fn si_diff_fits(a: SI, b: SI) -> bool {
    &&& si_fits(a.meters - b.meters)
    &&& si_fits(a.seconds - b.seconds)
    &&& si_fits(a.kilograms - b.kilograms)
}

/// The exponents of `a`, each multiplied by `x`, fit in `i64`.
pub open spec fn si_scale_fits(a: SI, x: int) -> bool {
    &&& si_fits(a.meters * x)
    &&& si_fits(a.seconds * x)
    &&& si_fits(a.kilograms * x)
}

impl SI {
    /// A dimension from its three base-unit exponents.
    pub fn new(meters: i64, seconds: i64, kilograms: i64) -> (r: SI)
        ensures
            r.meters == meters,
            r.seconds == seconds,
            r.kilograms == kilograms,
    {
        SI { meters, seconds, kilograms }
    }

    /// The dimensionless triple: all exponents zero.
    pub fn empty() -> (r: SI)
        ensures
            r.meters == 0,
            r.seconds == 0,
            r.kilograms == 0,
    {
        SI { meters: 0, seconds: 0, kilograms: 0 }
    }

    /// Every exponent multiplied by `x`; `None` only on `i64` overflow.
    pub fn pow(&self, x: i32) -> (r: Option<SI>)
        ensures
            r is Some ==> si_is_scaled(r->Some_0, *self, x as int),
            si_scale_fits(*self, x as int) ==> r is Some,
            r is None ==> !si_scale_fits(*self, x as int),
    {
        let m = match self.meters.checked_mul(x as i64) {
            Some(v) => v,
            None => { return None; },
        };
        let s = match self.seconds.checked_mul(x as i64) {
            Some(v) => v,
            None => { return None; },
        };
        let kg = match self.kilograms.checked_mul(x as i64) {
            Some(v) => v,
            None => { return None; },
        };
        Some(SI { meters: m, seconds: s, kilograms: kg })
    }

    /// Componentwise sum of two dimensions; `None` only on `i64` overflow.
    pub fn add(self, rhs: SI) -> (r: Option<SI>)
        ensures
            r is Some ==> si_is_sum(r->Some_0, self, rhs),
            si_sum_fits(self, rhs) ==> r is Some,
            r is None ==> !si_sum_fits(self, rhs),
    {
        let m = match self.meters.checked_add(rhs.meters) {
            Some(v) => v,
            None => { return None; },
        };
        let s = match self.seconds.checked_add(rhs.seconds) {
            Some(v) => v,
            None => { return None; },
        };
        let kg = match self.kilograms.checked_add(rhs.kilograms) {
            Some(v) => v,
            None => { return None; },
        };
        Some(SI { meters: m, seconds: s, kilograms: kg })
    }

    /// Componentwise difference of two dimensions; `None` only on `i64`
    /// overflow.
    pub fn sub(self, rhs: SI) -> (r: Option<SI>)
        ensures
            r is Some ==> si_is_diff(r->Some_0, self, rhs),
            si_diff_fits(self, rhs) ==> r is Some,
            r is None ==> !si_diff_fits(self, rhs),
    {
        let m = match self.meters.checked_sub(rhs.meters) {
            Some(v) => v,
            None => { return None; },
        };
        let s = match self.seconds.checked_sub(rhs.seconds) {
            Some(v) => v,
            None => { return None; },
        };
        let kg = match self.kilograms.checked_sub(rhs.kilograms) {
            Some(v) => v,
            None => { return None; },
        };
        Some(SI { meters: m, seconds: s, kilograms: kg })
    }
}

/// The closed catalog of named units. Each resolves to a fixed rational
/// factor over the base units; the catalog is immutable data.
#[allow(non_camel_case_types)]
#[derive(Clone, Copy, Debug, PartialEq, Eq, Structural)]
pub enum Units {
    /// meter
    m,
    /// parsec
    pc,
    /// kiloparsec
    kpc,
    /// second
    s,
    /// year
    yr,
    /// megayear
    Myr,
    /// kilogram
    kg,
    /// mass of the sun
    MSun,
    /// meters per second
    ms,
    /// kilometers per second
    kms,
    /// joule
    J,
    /// gravitational constant
    G,
}

/// The dimension of each named unit.
pub open spec fn unit_dim(u: Units) -> SI {
    match u {
        Units::m => SI { meters: 1, seconds: 0, kilograms: 0 },
        Units::pc => SI { meters: 1, seconds: 0, kilograms: 0 },
        Units::kpc => SI { meters: 1, seconds: 0, kilograms: 0 },
        Units::s => SI { meters: 0, seconds: 1, kilograms: 0 },
        Units::yr => SI { meters: 0, seconds: 1, kilograms: 0 },
        Units::Myr => SI { meters: 0, seconds: 1, kilograms: 0 },
        Units::kg => SI { meters: 0, seconds: 0, kilograms: 1 },
        Units::MSun => SI { meters: 0, seconds: 0, kilograms: 1 },
        Units::ms => SI { meters: 1, seconds: -1i64, kilograms: 0 },
        Units::kms => SI { meters: 1, seconds: -1i64, kilograms: 0 },
        Units::J => SI { meters: 2, seconds: -2i64, kilograms: 1 },
        Units::G => SI { meters: 3, seconds: -2i64, kilograms: -1i64 },
    }
}

/// The exact conversion factor of each named unit, in base units.
pub open spec fn unit_val(u: Units) -> (int, int) {
    match u {
        Units::m => (1, 1),
        Units::pc => (30860000000000000, 1),
        Units::kpc => (30860000000000000000, 1),
        Units::s => (1, 1),
        Units::yr => (31536000, 1),
        Units::Myr => (31536000000000, 1),
        Units::kg => (1, 1),
        Units::MSun => (1989000000000000000000000000000, 1),
        Units::ms => (1, 1),
        Units::kms => (1000, 1),
        Units::J => (1, 1),
        Units::G => (3337, 50000000000000),
    }
}

impl Units {
    /// The canonical quantity of this unit: its exact conversion factor
    /// tagged with its dimension.
    pub fn convert(&self) -> (r: ScalarQuantity)
        ensures
            sq_wf(r),
            r.units == unit_dim(*self),
            pv(r.value) == unit_val(*self),
            r.value.num > 0,
    {
        match self {
            Units::m => ScalarQuantity {
                value: Rat { num: 1, den: 1 },
                units: SI { meters: 1, seconds: 0, kilograms: 0 },
            },
            Units::pc => ScalarQuantity {
                value: Rat { num: 30860000000000000, den: 1 },
                units: SI { meters: 1, seconds: 0, kilograms: 0 },
            },
            Units::kpc => ScalarQuantity {
                value: Rat { num: 30860000000000000000, den: 1 },
                units: SI { meters: 1, seconds: 0, kilograms: 0 },
            },
            Units::s => ScalarQuantity {
                value: Rat { num: 1, den: 1 },
                units: SI { meters: 0, seconds: 1, kilograms: 0 },
            },
            Units::yr => ScalarQuantity {
                value: Rat { num: 31536000, den: 1 },
                units: SI { meters: 0, seconds: 1, kilograms: 0 },
            },
            Units::Myr => ScalarQuantity {
                value: Rat { num: 31536000000000, den: 1 },
                units: SI { meters: 0, seconds: 1, kilograms: 0 },
            },
            Units::kg => ScalarQuantity {
                value: Rat { num: 1, den: 1 },
                units: SI { meters: 0, seconds: 0, kilograms: 1 },
            },
            Units::MSun => ScalarQuantity {
                value: Rat { num: 1989000000000000000000000000000, den: 1 },
                units: SI { meters: 0, seconds: 0, kilograms: 1 },
            },
            Units::ms => ScalarQuantity {
                value: Rat { num: 1, den: 1 },
                units: SI { meters: 1, seconds: -1, kilograms: 0 },
            },
            Units::kms => ScalarQuantity {
                value: Rat { num: 1000, den: 1 },
                units: SI { meters: 1, seconds: -1, kilograms: 0 },
            },
            Units::J => ScalarQuantity {
                value: Rat { num: 1, den: 1 },
                units: SI { meters: 2, seconds: -2, kilograms: 1 },
            },
            Units::G => ScalarQuantity {
                value: Rat { num: 3337, den: 50000000000000 },
                units: SI { meters: 3, seconds: -2, kilograms: -1 },
            },
        }
    }

    /// The unit raised to an integer power.
    pub fn pow(&self, x: i32) -> (r: Result<ScalarQuantity, &'static str>)
        ensures
            x >= 0 && r is Ok ==> sq_wf(r->Ok_0)
                && rat_has(r->Ok_0.value, ppow(unit_val(*self), x as nat))
                && si_is_scaled(r->Ok_0.units, unit_dim(*self), x as int),
            x < 0 && r is Ok ==> sq_wf(r->Ok_0)
                && rat_has(r->Ok_0.value, ppow(pinv(unit_val(*self)), (-(x as int)) as nat))
                && si_is_scaled(r->Ok_0.units, unit_dim(*self), x as int),
            x >= 0 && pow_fits(unit_val(*self), x as nat)
                && si_scale_fits(unit_dim(*self), x as int) ==> r is Ok,
            x < 0 && pow_fits(pinv(unit_val(*self)), (-(x as int)) as nat)
                && si_scale_fits(unit_dim(*self), x as int) ==> r is Ok,
    {
        self.convert().pow(x)
    }

    /// This unit scaled by a dimensionless rational: the quantity `v` of
    /// this unit.
    pub fn times(self, v: Rat) -> (r: Result<ScalarQuantity, &'static str>)
        requires
            rat_wf(v),
        ensures
            r is Ok ==> sq_wf(r->Ok_0)
                && r->Ok_0.units == unit_dim(self)
                && rat_has(r->Ok_0.value, pmul(pv(v), unit_val(self))),
            mul_fits(pv(v), unit_val(self)) ==> r is Ok,
    {
        let c = self.convert();
        let value = match v.mul(c.value) {
            Some(w) => w,
            None => { return Err("numeric overflow"); },
        };
        Ok(ScalarQuantity { value, units: c.units })
    }

    /// A vector of this unit: each component of `v` scaled by the unit's
    /// factor.
    pub fn times_vec(self, v: Vector3) -> (r: Result<VectorQuantity, &'static str>)
        requires
            v3_wf(v),
        ensures
            r is Ok ==> vq_wf(r->Ok_0)
                && r->Ok_0.units == unit_dim(self)
                && rat_has(r->Ok_0.value.x, pmul(pv(v.x), unit_val(self)))
                && rat_has(r->Ok_0.value.y, pmul(pv(v.y), unit_val(self)))
                && rat_has(r->Ok_0.value.z, pmul(pv(v.z), unit_val(self))),
            mul_fits(pv(v.x), unit_val(self)) && mul_fits(pv(v.y), unit_val(self))
                && mul_fits(pv(v.z), unit_val(self)) ==> r is Ok,
    {
        let c = self.convert();
        let value = match v.scale(c.value) {
            Some(w) => w,
            None => { return Err("numeric overflow"); },
        };
        Ok(VectorQuantity { value, units: c.units })
    }
}

/// Law: for scalar quantities of equal dimension, adding `b` to `a` and
/// then subtracting `b` again yields a quantity with the value of `a` and
/// the operands' dimension. Here `s` is any result of `a.add(b)` and `r`
/// any result of `s.sub(b)`, as their contracts describe them.
pub proof fn lemma_add_sub_restores(
    a: ScalarQuantity,
    b: ScalarQuantity,
    s: ScalarQuantity,
    r: ScalarQuantity,
)
    requires
        sq_wf(a),
        sq_wf(b),
        sq_wf(s),
        sq_wf(r),
        a.units == b.units,
        s.units == a.units,
        rat_has(s.value, padd(pv(a.value), pv(b.value))),
        r.units == s.units,
        rat_has(r.value, psub(pv(s.value), pv(b.value))),
    ensures
        r.units == a.units,
        peq(pv(r.value), pv(a.value)),
{
    lemma_comp_add_sub_restores(a.value, b.value, s.value, r.value);
}

/// Law: for any scalar quantity `a` and nonzero dimensionless rational
/// `k`, multiplying by `k` and then dividing by `k` yields a quantity with
/// the value and dimension of `a`. Here `p` is any result of
/// `a.mul_rat(k)` and `r` any result of `p.div_rat(k)`.
pub proof fn lemma_mul_div_restores(
    a: ScalarQuantity,
    k: Rat,
    p: ScalarQuantity,
    r: ScalarQuantity,
)
    requires
        sq_wf(a),
        rat_wf(k),
        sq_wf(p),
        sq_wf(r),
        k.num != 0,
        p.units == a.units,
        rat_has(p.value, pmul(pv(a.value), pv(k))),
        r.units == p.units,
        rat_has(r.value, pdiv(pv(p.value), pv(k))),
    ensures
        r.units == a.units,
        peq(pv(r.value), pv(a.value)),
{
    lemma_comp_mul_div_restores(a.value, k, p.value, r.value);
}

/// Law: multiplying by a nonzero scalar quantity `q` and then dividing by
/// the same `q` yields a quantity with the value and dimension of `a`; in
/// particular a dimensionless nonzero factor cancels exactly. Here `p` is
/// any result of `a.mul(q)` and `r` any result of `p.div(q)`.
pub proof fn lemma_mul_div_quantity_restores(
    a: ScalarQuantity,
    q: ScalarQuantity,
    p: ScalarQuantity,
    r: ScalarQuantity,
)
    requires
        sq_wf(a),
        sq_wf(q),
        sq_wf(p),
        sq_wf(r),
        q.value.num != 0,
        si_is_sum(p.units, a.units, q.units),
        rat_has(p.value, pmul(pv(a.value), pv(q.value))),
        si_is_diff(r.units, p.units, q.units),
        rat_has(r.value, pdiv(pv(p.value), pv(q.value))),
    ensures
        r.units == a.units,
        peq(pv(r.value), pv(a.value)),
{
    lemma_comp_mul_div_restores(a.value, q.value, p.value, r.value);
}

/// Law: for vector quantities of equal dimension, adding `b` to `a` and
/// then subtracting `b` again yields a quantity with the componentwise
/// value of `a` and the operands' dimension. Here `s` is any result of
/// `a.add(b)` and `r` any result of `s.sub(b)`.
pub proof fn lemma_vector_add_sub_restores(
    a: VectorQuantity,
    b: VectorQuantity,
    s: VectorQuantity,
    r: VectorQuantity,
)
    requires
        vq_wf(a),
        vq_wf(b),
        vq_wf(s),
        vq_wf(r),
        a.units == b.units,
        s.units == a.units,
        rat_has(s.value.x, padd(pv(a.value.x), pv(b.value.x))),
        rat_has(s.value.y, padd(pv(a.value.y), pv(b.value.y))),
        rat_has(s.value.z, padd(pv(a.value.z), pv(b.value.z))),
        r.units == s.units,
        rat_has(r.value.x, psub(pv(s.value.x), pv(b.value.x))),
        rat_has(r.value.y, psub(pv(s.value.y), pv(b.value.y))),
        rat_has(r.value.z, psub(pv(s.value.z), pv(b.value.z))),
    ensures
        r.units == a.units,
        peq(pv(r.value.x), pv(a.value.x)),
        peq(pv(r.value.y), pv(a.value.y)),
        peq(pv(r.value.z), pv(a.value.z)),
{
    lemma_comp_add_sub_restores(a.value.x, b.value.x, s.value.x, r.value.x);
    lemma_comp_add_sub_restores(a.value.y, b.value.y, s.value.y, r.value.y);
    lemma_comp_add_sub_restores(a.value.z, b.value.z, s.value.z, r.value.z);
}

/// One component of the vector add-then-subtract law.
proof fn lemma_comp_add_sub_restores(a: Rat, b: Rat, s: Rat, r: Rat)
    requires
        rat_wf(a),
        rat_wf(b),
        rat_wf(s),
        rat_wf(r),
        rat_has(s, padd(pv(a), pv(b))),
        rat_has(r, psub(pv(s), pv(b))),
    ensures
        peq(pv(r), pv(a)),
{
    lemma_psub_peq(pv(s), padd(pv(a), pv(b)), pv(b), pv(b));
    lemma_padd_psub_cancel(pv(a), pv(b));
    assert(psub(pv(s), pv(b)).1 != 0 && psub(padd(pv(a), pv(b)), pv(b)).1 != 0)
        by (nonlinear_arith)
        requires
            psub(pv(s), pv(b)).1 == s.den * b.den,
            psub(padd(pv(a), pv(b)), pv(b)).1 == (a.den * b.den) * b.den,
            s.den > 0,
            a.den > 0,
            b.den > 0,
    ;
    lemma_peq_trans(pv(r), psub(pv(s), pv(b)), psub(padd(pv(a), pv(b)), pv(b)));
    lemma_peq_trans(pv(r), psub(padd(pv(a), pv(b)), pv(b)), pv(a));
}

/// Law: for any vector quantity `a` and nonzero dimensionless rational
/// `k`, multiplying by `k` and then dividing by `k` yields a quantity
/// with the componentwise value and the dimension of `a`. Here `p` is any
/// result of `a.mul_rat(k)` and `r` any result of `p.div_rat(k)`.
pub proof fn lemma_vector_mul_div_restores(
    a: VectorQuantity,
    k: Rat,
    p: VectorQuantity,
    r: VectorQuantity,
)
    requires
        vq_wf(a),
        rat_wf(k),
        vq_wf(p),
        vq_wf(r),
        k.num != 0,
        p.units == a.units,
        rat_has(p.value.x, pmul(pv(a.value.x), pv(k))),
        rat_has(p.value.y, pmul(pv(a.value.y), pv(k))),
        rat_has(p.value.z, pmul(pv(a.value.z), pv(k))),
        r.units == p.units,
        rat_has(r.value.x, pdiv(pv(p.value.x), pv(k))),
        rat_has(r.value.y, pdiv(pv(p.value.y), pv(k))),
        rat_has(r.value.z, pdiv(pv(p.value.z), pv(k))),
    ensures
        r.units == a.units,
        peq(pv(r.value.x), pv(a.value.x)),
        peq(pv(r.value.y), pv(a.value.y)),
        peq(pv(r.value.z), pv(a.value.z)),
{
    lemma_comp_mul_div_restores(a.value.x, k, p.value.x, r.value.x);
    lemma_comp_mul_div_restores(a.value.y, k, p.value.y, r.value.y);
    lemma_comp_mul_div_restores(a.value.z, k, p.value.z, r.value.z);
}

/// One component of the vector multiply-then-divide law.
proof fn lemma_comp_mul_div_restores(a: Rat, k: Rat, p: Rat, r: Rat)
    requires
        rat_wf(a),
        rat_wf(k),
        rat_wf(p),
        rat_wf(r),
        k.num != 0,
        rat_has(p, pmul(pv(a), pv(k))),
        rat_has(r, pdiv(pv(p), pv(k))),
    ensures
        peq(pv(r), pv(a)),
{
    lemma_pdiv_peq(pv(p), pmul(pv(a), pv(k)), pv(k), pv(k));
    lemma_pmul_pdiv_cancel(pv(a), pv(k));
    assert(pdiv(pv(p), pv(k)).1 != 0 && pdiv(pmul(pv(a), pv(k)), pv(k)).1 != 0)
        by (nonlinear_arith)
        requires
            pdiv(pv(p), pv(k)).1 == (if k.num as int >= 0 { p.den * k.num } else {
                0 - p.den * k.num
            }),
            pdiv(pmul(pv(a), pv(k)), pv(k)).1 == (if k.num as int >= 0 {
                (a.den * k.den) * k.num
            } else {
                0 - (a.den * k.den) * k.num
            }),
            p.den > 0,
            a.den > 0,
            k.den > 0,
            k.num != 0,
    ;
    lemma_peq_trans(pv(r), pdiv(pv(p), pv(k)), pdiv(pmul(pv(a), pv(k)), pv(k)));
    lemma_peq_trans(pv(r), pdiv(pmul(pv(a), pv(k)), pv(k)), pv(a));
}

/// Law: `value_in` is a bijection for a fixed unit. If `v` is the number
/// of units `u` that `q` amounts to (any result of `q.value_in(u)`), then
/// the quantity `v` of unit `u` (any result of `u.times(v)`) has the value
/// and dimension of `q`.
pub proof fn lemma_value_in_roundtrip(q: ScalarQuantity, u: Units, v: Rat, r: ScalarQuantity)
    requires
        sq_wf(q),
        rat_wf(v),
        sq_wf(r),
        q.units == unit_dim(u),
        rat_has(v, pdiv(pv(q.value), unit_val(u))),
        r.units == unit_dim(u),
        rat_has(r.value, pmul(pv(v), unit_val(u))),
    ensures
        r.units == q.units,
        peq(pv(r.value), pv(q.value)),
{
    let pq = pv(q.value);
    let uv = unit_val(u);
    assert(uv.0 > 0 && uv.1 > 0);
    lemma_pmul_peq(pv(v), pdiv(pq, uv), uv, uv);
    lemma_pdiv_pmul_cancel(pq, uv);
    assert(pmul(pv(v), uv).1 != 0 && pmul(pdiv(pq, uv), uv).1 != 0) by (nonlinear_arith)
        requires
            pmul(pv(v), uv).1 == v.den * uv.1,
            pmul(pdiv(pq, uv), uv).1 == (pq.1 * uv.0) * uv.1,
            v.den > 0,
            pq.1 > 0,
            uv.0 > 0,
            uv.1 > 0,
            pdiv(pq, uv) == (pq.0 * uv.1, pq.1 * uv.0),
    ;
    lemma_peq_trans(pv(r.value), pmul(pv(v), uv), pmul(pdiv(pq, uv), uv));
    lemma_peq_trans(pv(r.value), pmul(pdiv(pq, uv), uv), pq);
}

/// A physical scalar: an exact rational value tagged with a dimension.
#[derive(Clone, Copy, Debug, PartialEq, Eq, Structural)]
pub struct ScalarQuantity {
    pub value: Rat,
    pub units: SI,
}

/// A physical 3-vector: an exact rational vector tagged with a dimension.
#[derive(Clone, Copy, Debug, PartialEq, Eq, Structural)]
pub struct VectorQuantity {
    pub value: Vector3,
    pub units: SI,
}

/// The value of a scalar quantity is a well-formed rational.
pub open spec fn sq_wf(q: ScalarQuantity) -> bool {
    rat_wf(q.value)
}

/// The value of a vector quantity is a well-formed vector.
pub open spec fn vq_wf(q: VectorQuantity) -> bool {
    v3_wf(q.value)
}

impl ScalarQuantity {
    /// The dimensionless scalar one.
    pub fn new() -> (r: ScalarQuantity)
        ensures
            sq_wf(r),
            pv(r.value) == (1int, 1int),
            r.units == (SI { meters: 0, seconds: 0, kilograms: 0 }),
    {
        ScalarQuantity { value: Rat::one(), units: SI::empty() }
    }

    /// Dimension-equality predicate; never fails.
    pub fn is_compatible(&self, q: &ScalarQuantity) -> (r: bool)
        ensures
            r <==> self.units == q.units,
    {
        self.units == q.units
    }

    /// Sum of two scalars of equal dimension. Fails on a dimension
    /// mismatch, and on `i128` overflow.
    pub fn add(self, rhs: ScalarQuantity) -> (r: Result<ScalarQuantity, &'static str>)
        requires
            sq_wf(self),
            sq_wf(rhs),
        ensures
            self.units != rhs.units ==> r is Err,
            r is Ok ==> self.units == rhs.units
                && r->Ok_0.units == self.units
                && sq_wf(r->Ok_0)
                && rat_has(r->Ok_0.value, padd(pv(self.value), pv(rhs.value))),
            self.units == rhs.units && add_fits(pv(self.value), pv(rhs.value)) ==> r is Ok,
            r is Err ==> self.units != rhs.units || !add_fits(pv(self.value), pv(rhs.value)),
    {
        if self.units != rhs.units {
            return Err("trying to sum incompatible units");
        }
        let value = match self.value.add(rhs.value) {
            Some(w) => w,
            None => { return Err("numeric overflow"); },
        };
        Ok(ScalarQuantity { value, units: self.units })
    }

    /// Difference of two scalars of equal dimension. Fails on a dimension
    /// mismatch, and on `i128` overflow.
    pub fn sub(self, rhs: ScalarQuantity) -> (r: Result<ScalarQuantity, &'static str>)
        requires
            sq_wf(self),
            sq_wf(rhs),
        ensures
            self.units != rhs.units ==> r is Err,
            r is Ok ==> self.units == rhs.units
                && r->Ok_0.units == self.units
                && sq_wf(r->Ok_0)
                && rat_has(r->Ok_0.value, psub(pv(self.value), pv(rhs.value))),
            self.units == rhs.units && sub_fits(pv(self.value), pv(rhs.value)) ==> r is Ok,
            r is Err ==> self.units != rhs.units || !sub_fits(pv(self.value), pv(rhs.value)),
    {
        if self.units != rhs.units {
            return Err("trying to sum incompatible units");
        }
        let value = match self.value.sub(rhs.value) {
            Some(w) => w,
            None => { return Err("numeric overflow"); },
        };
        Ok(ScalarQuantity { value, units: self.units })
    }

    /// Product of two scalars; the dimensions add. Never fails on a
    /// dimension ground, only on overflow.
    pub fn mul(self, rhs: ScalarQuantity) -> (r: Result<ScalarQuantity, &'static str>)
        requires
            sq_wf(self),
            sq_wf(rhs),
        ensures
            r is Ok ==> sq_wf(r->Ok_0)
                && si_is_sum(r->Ok_0.units, self.units, rhs.units)
                && rat_has(r->Ok_0.value, pmul(pv(self.value), pv(rhs.value))),
            mul_fits(pv(self.value), pv(rhs.value)) && si_sum_fits(self.units, rhs.units)
                ==> r is Ok,
            r is Err ==> !mul_fits(pv(self.value), pv(rhs.value))
                || !si_sum_fits(self.units, rhs.units),
    {
        let units = match self.units.add(rhs.units) {
            Some(u) => u,
            None => { return Err("numeric overflow"); },
        };
        let value = match self.value.mul(rhs.value) {
            Some(w) => w,
            None => { return Err("numeric overflow"); },
        };
        Ok(ScalarQuantity { value, units })
    }

    /// Quotient of two scalars; the dimensions subtract. Fails on a zero
    /// divisor and on overflow.
    pub fn div(self, rhs: ScalarQuantity) -> (r: Result<ScalarQuantity, &'static str>)
        requires
            sq_wf(self),
            sq_wf(rhs),
        ensures
            rhs.value.num == 0 ==> r is Err,
            r is Ok ==> sq_wf(r->Ok_0)
                && si_is_diff(r->Ok_0.units, self.units, rhs.units)
                && rat_has(r->Ok_0.value, pdiv(pv(self.value), pv(rhs.value))),
            rhs.value.num != 0 && div_fits(pv(self.value), pv(rhs.value))
                && si_diff_fits(self.units, rhs.units) ==> r is Ok,
            r is Err ==> rhs.value.num == 0 || !div_fits(pv(self.value), pv(rhs.value))
                || !si_diff_fits(self.units, rhs.units),
    {
        if rhs.value.num == 0 {
            return Err("division by zero");
        }
        let units = match self.units.sub(rhs.units) {
            Some(u) => u,
            None => { return Err("numeric overflow"); },
        };
        let value = match self.value.div(rhs.value) {
            Some(w) => w,
            None => { return Err("numeric overflow"); },
        };
        Ok(ScalarQuantity { value, units })
    }

    /// Scaling by a dimensionless rational; the dimension is unchanged.
    pub fn mul_rat(self, k: Rat) -> (r: Result<ScalarQuantity, &'static str>)
        requires
            sq_wf(self),
            rat_wf(k),
        ensures
            r is Ok ==> sq_wf(r->Ok_0)
                && r->Ok_0.units == self.units
                && rat_has(r->Ok_0.value, pmul(pv(self.value), pv(k))),
            mul_fits(pv(self.value), pv(k)) ==> r is Ok,
            r is Err ==> !mul_fits(pv(self.value), pv(k)),
    {
        let value = match self.value.mul(k) {
            Some(w) => w,
            None => { return Err("numeric overflow"); },
        };
        Ok(ScalarQuantity { value, units: self.units })
    }

    /// Division by a dimensionless rational; the dimension is unchanged.
    pub fn div_rat(self, k: Rat) -> (r: Result<ScalarQuantity, &'static str>)
        requires
            sq_wf(self),
            rat_wf(k),
        ensures
            k.num == 0 ==> r is Err,
            r is Ok ==> sq_wf(r->Ok_0)
                && r->Ok_0.units == self.units
                && rat_has(r->Ok_0.value, pdiv(pv(self.value), pv(k))),
            k.num != 0 && div_fits(pv(self.value), pv(k)) ==> r is Ok,
            r is Err ==> k.num == 0 || !div_fits(pv(self.value), pv(k)),
    {
        let value = match self.value.div(k) {
            Some(w) => w,
            None => { return Err("division by zero"); },
        };
        Ok(ScalarQuantity { value, units: self.units })
    }

    /// Integer power: the value is raised to `x` and every dimension
    /// exponent is multiplied by `x`. The exponent is restricted to
    /// integers: a fractional power of an exact rational is irrational in
    /// general, so it has no exact carrier here.
    pub fn pow(self, x: i32) -> (r: Result<ScalarQuantity, &'static str>)
        requires
            sq_wf(self),
        ensures
            x >= 0 && r is Ok ==> sq_wf(r->Ok_0)
                && rat_has(r->Ok_0.value, ppow(pv(self.value), x as nat))
                && si_is_scaled(r->Ok_0.units, self.units, x as int),
            x < 0 && r is Ok ==> sq_wf(r->Ok_0)
                && rat_has(r->Ok_0.value, ppow(pinv(pv(self.value)), (-(x as int)) as nat))
                && si_is_scaled(r->Ok_0.units, self.units, x as int),
            x < 0 && self.value.num == 0 ==> r is Err,
            x >= 0 && pow_fits(pv(self.value), x as nat)
                && si_scale_fits(self.units, x as int) ==> r is Ok,
            x < 0 && self.value.num != 0 && pow_fits(pinv(pv(self.value)), (-(x as int)) as nat)
                && si_scale_fits(self.units, x as int) ==> r is Ok,
    {
        let units = match self.units.pow(x) {
            Some(u) => u,
            None => { return Err("numeric overflow"); },
        };
        let value = match self.value.pow(x) {
            Some(w) => w,
            None => {
                if x < 0 && self.value.num == 0 {
                    return Err("division by zero");
                }
                return Err("numeric overflow");
            },
        };
        Ok(ScalarQuantity { value, units })
    }

    /// The number of `q`s this quantity amounts to. Fails when the
    /// dimensions differ, on a zero `q`, and on overflow.
    pub fn value_in_q(&self, q: ScalarQuantity) -> (r: Result<Rat, &'static str>)
        requires
            sq_wf(*self),
            sq_wf(q),
        ensures
            self.units != q.units ==> r is Err,
            q.value.num == 0 ==> r is Err,
            r is Ok ==> self.units == q.units
                && rat_wf(r->Ok_0)
                && rat_has(r->Ok_0, pdiv(pv(self.value), pv(q.value))),
            r is Ok ==> vstd::math::abs(r->Ok_0.num as int)
                <= vstd::math::abs(self.value.num as int * q.value.den as int)
                && r->Ok_0.den as int
                    <= vstd::math::abs(self.value.den as int * q.value.num as int),
            self.units == q.units && q.value.num != 0
                && div_fits(pv(self.value), pv(q.value)) ==> r is Ok,
            r is Err ==> self.units != q.units || q.value.num == 0
                || !div_fits(pv(self.value), pv(q.value)),
    {
        if self.units != q.units {
            return Err("trying to take value in incompatible units");
        }
        match self.value.div(q.value) {
            Some(w) => Ok(w),
            None => {
                if q.value.num == 0 {
                    Err("division by zero")
                } else {
                    Err("numeric overflow")
                }
            },
        }
    }

    /// The number of named units this quantity amounts to. Fails when the
    /// dimensions differ, and on overflow.
    pub fn value_in(&self, unit: Units) -> (r: Result<Rat, &'static str>)
        requires
            sq_wf(*self),
        ensures
            self.units != unit_dim(unit) ==> r is Err,
            r is Ok ==> self.units == unit_dim(unit)
                && rat_wf(r->Ok_0)
                && rat_has(r->Ok_0, pdiv(pv(self.value), unit_val(unit))),
            r is Ok ==> vstd::math::abs(r->Ok_0.num as int)
                <= vstd::math::abs(self.value.num as int * unit_val(unit).1)
                && r->Ok_0.den as int
                    <= vstd::math::abs(self.value.den as int * unit_val(unit).0),
            self.units == unit_dim(unit) && div_fits(pv(self.value), unit_val(unit))
                ==> r is Ok,
            r is Err ==> self.units != unit_dim(unit)
                || !div_fits(pv(self.value), unit_val(unit)),
    {
        self.value_in_q(unit.convert())
    }

    /// `self <= rhs` for scalars of equal dimension; fails on a dimension
    /// mismatch, and on overflow.
    pub fn le(&self, rhs: &ScalarQuantity) -> (r: Result<bool, &'static str>)
        requires
            sq_wf(*self),
            sq_wf(*rhs),
        ensures
            self.units != rhs.units ==> r is Err,
            r is Ok ==> self.units == rhs.units
                && (r->Ok_0 <==> ple(pv(self.value), pv(rhs.value))),
            self.units == rhs.units && in_rng(pv(self.value).0 * pv(rhs.value).1)
                && in_rng(pv(rhs.value).0 * pv(self.value).1) ==> r is Ok,
            r is Err ==> self.units != rhs.units
                || !(in_rng(pv(self.value).0 * pv(rhs.value).1)
                    && in_rng(pv(rhs.value).0 * pv(self.value).1)),
    {
        if self.units != rhs.units {
            return Err("trying to compare incompatible units");
        }
        match self.value.le(rhs.value) {
            Some(b) => Ok(b),
            None => Err("numeric overflow"),
        }
    }

    /// `self < rhs` for scalars of equal dimension; fails on a dimension
    /// mismatch, and on overflow.
    pub fn lt(&self, rhs: &ScalarQuantity) -> (r: Result<bool, &'static str>)
        requires
            sq_wf(*self),
            sq_wf(*rhs),
        ensures
            self.units != rhs.units ==> r is Err,
            r is Ok ==> self.units == rhs.units
                && (r->Ok_0 <==> !ple(pv(rhs.value), pv(self.value))),
            self.units == rhs.units && in_rng(pv(self.value).0 * pv(rhs.value).1)
                && in_rng(pv(rhs.value).0 * pv(self.value).1) ==> r is Ok,
            r is Err ==> self.units != rhs.units
                || !(in_rng(pv(self.value).0 * pv(rhs.value).1)
                    && in_rng(pv(rhs.value).0 * pv(self.value).1)),
    {
        if self.units != rhs.units {
            return Err("trying to compare incompatible units");
        }
        match rhs.value.le(self.value) {
            Some(b) => Ok(!b),
            None => Err("numeric overflow"),
        }
    }

    /// `self >= rhs` for scalars of equal dimension; fails on a dimension
    /// mismatch, and on overflow.
    pub fn ge(&self, rhs: &ScalarQuantity) -> (r: Result<bool, &'static str>)
        requires
            sq_wf(*self),
            sq_wf(*rhs),
        ensures
            self.units != rhs.units ==> r is Err,
            r is Ok ==> self.units == rhs.units
                && (r->Ok_0 <==> ple(pv(rhs.value), pv(self.value))),
            self.units == rhs.units && in_rng(pv(self.value).0 * pv(rhs.value).1)
                && in_rng(pv(rhs.value).0 * pv(self.value).1) ==> r is Ok,
            r is Err ==> self.units != rhs.units
                || !(in_rng(pv(self.value).0 * pv(rhs.value).1)
                    && in_rng(pv(rhs.value).0 * pv(self.value).1)),
    {
        if self.units != rhs.units {
            return Err("trying to compare incompatible units");
        }
        match rhs.value.le(self.value) {
            Some(b) => Ok(b),
            None => Err("numeric overflow"),
        }
    }

    /// `self > rhs` for scalars of equal dimension; fails on a dimension
    /// mismatch, and on overflow.
    pub fn gt(&self, rhs: &ScalarQuantity) -> (r: Result<bool, &'static str>)
        requires
            sq_wf(*self),
            sq_wf(*rhs),
        ensures
            self.units != rhs.units ==> r is Err,
            r is Ok ==> self.units == rhs.units
                && (r->Ok_0 <==> !ple(pv(self.value), pv(rhs.value))),
            self.units == rhs.units && in_rng(pv(self.value).0 * pv(rhs.value).1)
                && in_rng(pv(rhs.value).0 * pv(self.value).1) ==> r is Ok,
            r is Err ==> self.units != rhs.units
                || !(in_rng(pv(self.value).0 * pv(rhs.value).1)
                    && in_rng(pv(rhs.value).0 * pv(self.value).1)),
    {
        if self.units != rhs.units {
            return Err("trying to compare incompatible units");
        }
        match self.value.le(rhs.value) {
            Some(b) => Ok(!b),
            None => Err("numeric overflow"),
        }
    }
}

impl VectorQuantity {
    /// A dimensionless vector quantity from a bare vector.
    pub fn from(v: Vector3) -> (r: VectorQuantity)
        ensures
            r.value == v,
            r.units == (SI { meters: 0, seconds: 0, kilograms: 0 }),
    {
        VectorQuantity { value: v, units: SI::empty() }
    }

    /// Dimension-equality predicate against a scalar; never fails.
    pub fn is_compatible(&self, q: &ScalarQuantity) -> (r: bool)
        ensures
            r <==> self.units == q.units,
    {
        self.units == q.units
    }

    /// The Euclidean norm of the vector part, on the `1 / SQRT_SCALE` grid,
    /// with the same dimension. Fails only on overflow.
    pub fn mag(self) -> (r: Result<ScalarQuantity, &'static str>)
        requires
            vq_wf(self),
        ensures
            r is Ok ==> sq_wf(r->Ok_0)
                && r->Ok_0.units == self.units
                && is_mag_of(r->Ok_0.value, self.value)
                && r->Ok_0.value.den == SQRT_SCALE,
            mag_env(self.value) ==> r is Ok,
    {
        let value = match self.value.mag() {
            Some(w) => w,
            None => { return Err("numeric overflow"); },
        };
        Ok(ScalarQuantity { value, units: self.units })
    }

    /// Sum of two vectors of equal dimension. Fails on a dimension
    /// mismatch, and on overflow.
    pub fn add(self, rhs: VectorQuantity) -> (r: Result<VectorQuantity, &'static str>)
        requires
            vq_wf(self),
            vq_wf(rhs),
        ensures
            self.units != rhs.units ==> r is Err,
            r is Ok ==> self.units == rhs.units
                && r->Ok_0.units == self.units
                && vq_wf(r->Ok_0)
                && rat_has(r->Ok_0.value.x, padd(pv(self.value.x), pv(rhs.value.x)))
                && rat_has(r->Ok_0.value.y, padd(pv(self.value.y), pv(rhs.value.y)))
                && rat_has(r->Ok_0.value.z, padd(pv(self.value.z), pv(rhs.value.z))),
            self.units == rhs.units && add_fits(pv(self.value.x), pv(rhs.value.x))
                && add_fits(pv(self.value.y), pv(rhs.value.y))
                && add_fits(pv(self.value.z), pv(rhs.value.z)) ==> r is Ok,
    {
        if self.units != rhs.units {
            return Err("trying to sum incompatible units");
        }
        let value = match self.value.add(rhs.value) {
            Some(w) => w,
            None => { return Err("numeric overflow"); },
        };
        Ok(VectorQuantity { value, units: self.units })
    }

    /// Difference of two vectors of equal dimension. Fails on a dimension
    /// mismatch, and on overflow.
    pub fn sub(self, rhs: VectorQuantity) -> (r: Result<VectorQuantity, &'static str>)
        requires
            vq_wf(self),
            vq_wf(rhs),
        ensures
            self.units != rhs.units ==> r is Err,
            r is Ok ==> self.units == rhs.units
                && r->Ok_0.units == self.units
                && vq_wf(r->Ok_0)
                && rat_has(r->Ok_0.value.x, psub(pv(self.value.x), pv(rhs.value.x)))
                && rat_has(r->Ok_0.value.y, psub(pv(self.value.y), pv(rhs.value.y)))
                && rat_has(r->Ok_0.value.z, psub(pv(self.value.z), pv(rhs.value.z))),
            self.units == rhs.units && sub_fits(pv(self.value.x), pv(rhs.value.x))
                && sub_fits(pv(self.value.y), pv(rhs.value.y))
                && sub_fits(pv(self.value.z), pv(rhs.value.z)) ==> r is Ok,
    {
        if self.units != rhs.units {
            return Err("trying to sum incompatible units");
        }
        let value = match self.value.sub(rhs.value) {
            Some(w) => w,
            None => { return Err("numeric overflow"); },
        };
        Ok(VectorQuantity { value, units: self.units })
    }

    /// Product with a scalar quantity; the dimensions add. Fails only on
    /// overflow.
    pub fn mul(self, rhs: ScalarQuantity) -> (r: Result<VectorQuantity, &'static str>)
        requires
            vq_wf(self),
            sq_wf(rhs),
        ensures
            r is Ok ==> vq_wf(r->Ok_0)
                && si_is_sum(r->Ok_0.units, self.units, rhs.units)
                && rat_has(r->Ok_0.value.x, pmul(pv(self.value.x), pv(rhs.value)))
                && rat_has(r->Ok_0.value.y, pmul(pv(self.value.y), pv(rhs.value)))
                && rat_has(r->Ok_0.value.z, pmul(pv(self.value.z), pv(rhs.value))),
            mul_fits(pv(self.value.x), pv(rhs.value))
                && mul_fits(pv(self.value.y), pv(rhs.value))
                && mul_fits(pv(self.value.z), pv(rhs.value))
                && si_sum_fits(self.units, rhs.units) ==> r is Ok,
    {
        let units = match self.units.add(rhs.units) {
            Some(u) => u,
            None => { return Err("numeric overflow"); },
        };
        let value = match self.value.scale(rhs.value) {
            Some(w) => w,
            None => { return Err("numeric overflow"); },
        };
        Ok(VectorQuantity { value, units })
    }

    /// Quotient by a scalar quantity; the dimensions subtract. Fails on a
    /// zero divisor and on overflow.
    pub fn div(self, rhs: ScalarQuantity) -> (r: Result<VectorQuantity, &'static str>)
        requires
            vq_wf(self),
            sq_wf(rhs),
        ensures
            rhs.value.num == 0 ==> r is Err,
            r is Ok ==> vq_wf(r->Ok_0)
                && si_is_diff(r->Ok_0.units, self.units, rhs.units)
                && rat_has(r->Ok_0.value.x, pdiv(pv(self.value.x), pv(rhs.value)))
                && rat_has(r->Ok_0.value.y, pdiv(pv(self.value.y), pv(rhs.value)))
                && rat_has(r->Ok_0.value.z, pdiv(pv(self.value.z), pv(rhs.value))),
            rhs.value.num != 0 && div_fits(pv(self.value.x), pv(rhs.value))
                && div_fits(pv(self.value.y), pv(rhs.value))
                && div_fits(pv(self.value.z), pv(rhs.value))
                && si_diff_fits(self.units, rhs.units) ==> r is Ok,
    {
        if rhs.value.num == 0 {
            return Err("division by zero");
        }
        let units = match self.units.sub(rhs.units) {
            Some(u) => u,
            None => { return Err("numeric overflow"); },
        };
        let value = match self.value.scale_div(rhs.value) {
            Some(w) => w,
            None => { return Err("numeric overflow"); },
        };
        Ok(VectorQuantity { value, units })
    }

    /// Scaling by a dimensionless rational; the dimension is unchanged.
    pub fn mul_rat(self, k: Rat) -> (r: Result<VectorQuantity, &'static str>)
        requires
            vq_wf(self),
            rat_wf(k),
        ensures
            r is Ok ==> vq_wf(r->Ok_0)
                && r->Ok_0.units == self.units
                && rat_has(r->Ok_0.value.x, pmul(pv(self.value.x), pv(k)))
                && rat_has(r->Ok_0.value.y, pmul(pv(self.value.y), pv(k)))
                && rat_has(r->Ok_0.value.z, pmul(pv(self.value.z), pv(k))),
            mul_fits(pv(self.value.x), pv(k)) && mul_fits(pv(self.value.y), pv(k))
                && mul_fits(pv(self.value.z), pv(k)) ==> r is Ok,
    {
        let value = match self.value.scale(k) {
            Some(w) => w,
            None => { return Err("numeric overflow"); },
        };
        Ok(VectorQuantity { value, units: self.units })
    }

    /// Division by a dimensionless rational; the dimension is unchanged.
    pub fn div_rat(self, k: Rat) -> (r: Result<VectorQuantity, &'static str>)
        requires
            vq_wf(self),
            rat_wf(k),
        ensures
            k.num == 0 ==> r is Err,
            r is Ok ==> vq_wf(r->Ok_0)
                && r->Ok_0.units == self.units
                && rat_has(r->Ok_0.value.x, pdiv(pv(self.value.x), pv(k)))
                && rat_has(r->Ok_0.value.y, pdiv(pv(self.value.y), pv(k)))
                && rat_has(r->Ok_0.value.z, pdiv(pv(self.value.z), pv(k))),
            k.num != 0 && div_fits(pv(self.value.x), pv(k)) && div_fits(pv(self.value.y), pv(k))
                && div_fits(pv(self.value.z), pv(k)) ==> r is Ok,
    {
        let value = match self.value.scale_div(k) {
            Some(w) => w,
            None => {
                if k.num == 0 {
                    return Err("division by zero");
                }
                return Err("numeric overflow");
            },
        };
        Ok(VectorQuantity { value, units: self.units })
    }

    /// The vector of numbers of `q`s this quantity amounts to. Fails when
    /// the dimensions differ, on a zero `q`, and on overflow.
    pub fn value_in_q(&self, q: ScalarQuantity) -> (r: Result<Vector3, &'static str>)
        requires
            vq_wf(*self),
            sq_wf(q),
        ensures
            self.units != q.units ==> r is Err,
            q.value.num == 0 ==> r is Err,
            r is Ok ==> self.units == q.units
                && v3_wf(r->Ok_0)
                && rat_has(r->Ok_0.x, pdiv(pv(self.value.x), pv(q.value)))
                && rat_has(r->Ok_0.y, pdiv(pv(self.value.y), pv(q.value)))
                && rat_has(r->Ok_0.z, pdiv(pv(self.value.z), pv(q.value))),
            self.units == q.units && q.value.num != 0
                && div_fits(pv(self.value.x), pv(q.value))
                && div_fits(pv(self.value.y), pv(q.value))
                && div_fits(pv(self.value.z), pv(q.value)) ==> r is Ok,
    {
        if self.units != q.units {
            return Err("trying to take value in incompatible units");
        }
        if q.value.num == 0 {
            return Err("division by zero");
        }
        match self.value.scale_div(q.value) {
            Some(w) => Ok(w),
            None => Err("numeric overflow"),
        }
    }

    /// The vector of numbers of named units this quantity amounts to.
    /// Fails when the dimensions differ, and on overflow.
    pub fn value_in(&self, unit: Units) -> (r: Result<Vector3, &'static str>)
        requires
            vq_wf(*self),
        ensures
            self.units != unit_dim(unit) ==> r is Err,
            r is Ok ==> self.units == unit_dim(unit)
                && v3_wf(r->Ok_0)
                && rat_has(r->Ok_0.x, pdiv(pv(self.value.x), unit_val(unit)))
                && rat_has(r->Ok_0.y, pdiv(pv(self.value.y), unit_val(unit)))
                && rat_has(r->Ok_0.z, pdiv(pv(self.value.z), unit_val(unit)))
                && rat_has(r->Ok_0.x, pdiv(pv(self.value.x), unit_val(unit))),
            self.units == unit_dim(unit) && div_fits(pv(self.value.x), unit_val(unit))
                && div_fits(pv(self.value.y), unit_val(unit))
                && div_fits(pv(self.value.z), unit_val(unit)) ==> r is Ok,
    {
        self.value_in_q(unit.convert())
    }
}

} // verus!
