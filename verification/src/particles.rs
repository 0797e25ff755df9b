//! Validated particles and particle sets, with aggregate energy queries.

use vstd::prelude::*;
use crate::rational::{
    Rat, rat_wf, pv, padd, psub, pmul, pdiv, rat_has, SQRT_SCALE, QUANT, sqrt_lb, sqrt_ub,
    lemma_rat_has_trans, lemma_pmul_peq, lemma_padd_peq, lemma_psub_peq, lemma_pdiv_peq,
    lemma_sqrt_bounds_transfer, lemma_quant_transfer, lemma_mul_in_rng, lemma_sum_in_rng,
};
use crate::vector::{Vector3, v3_wf, pdot, lemma_pdot_self_sign, lemma_dot_self_nonneg};
use crate::quantity::{
    SI, Units, unit_dim, unit_val, ScalarQuantity, VectorQuantity, sq_wf, vq_wf,
};

verus! {

/// A material point: a length-dimensioned position, a velocity, and a
/// nonnegative mass. Every constructor and mutator re-validates these
/// constraints.
#[derive(Clone, Copy, Debug, PartialEq, Eq, Structural)]
pub struct Particle {
    pub position: VectorQuantity,
    pub velocity: VectorQuantity,
    pub mass: ScalarQuantity,
}

/// The validation contract of a particle: dimensions of position, velocity
/// and mass are length, length per time and mass, and the mass value is
/// nonnegative.
pub open spec fn particle_wf(p: Particle) -> bool {
    &&& vq_wf(p.position) && p.position.units == unit_dim(Units::m)
    &&& vq_wf(p.velocity) && p.velocity.units == unit_dim(Units::ms)
    &&& sq_wf(p.mass) && p.mass.units == unit_dim(Units::kg) && p.mass.value.num >= 0
}

/// Every particle of the sequence is valid.
pub open spec fn pseq_wf(s: Seq<Particle>) -> bool {
    forall|i: int| 0 <= i < s.len() ==> particle_wf(#[trigger] s[i])
}

impl Particle {
    /// A valid particle from its three attributes; each is validated in
    /// turn and the first violation is reported.
    pub fn new(
        position: VectorQuantity,
        velocity: VectorQuantity,
        mass: ScalarQuantity,
    ) -> (r: Result<Particle, &'static str>)
        requires
            vq_wf(position),
            vq_wf(velocity),
            sq_wf(mass),
        ensures
            r is Ok ==> particle_wf(r->Ok_0)
                && r->Ok_0.position == position
                && r->Ok_0.velocity == velocity
                && r->Ok_0.mass == mass,
            position.units != unit_dim(Units::m) ==> r is Err
                && r->Err_0@ == "incorrect position"@,
            position.units == unit_dim(Units::m) && velocity.units != unit_dim(Units::ms)
                ==> r is Err && r->Err_0@ == "incorrect velocity"@,
            position.units == unit_dim(Units::m) && velocity.units == unit_dim(Units::ms)
                && (mass.units != unit_dim(Units::kg) || mass.value.num < 0)
                ==> r is Err && r->Err_0@ == "incorrect mass"@,
            position.units == unit_dim(Units::m) && velocity.units == unit_dim(Units::ms)
                && mass.units == unit_dim(Units::kg) && mass.value.num >= 0 ==> r is Ok,
    {
        let mut res = Particle::empty();
        match res.set_position(position) {
            Ok(()) => {},
            Err(e) => { return Err(e); },
        }
        match res.set_velocity(velocity) {
            Ok(()) => {},
            Err(e) => { return Err(e); },
        }
        match res.set_mass(mass) {
            Ok(()) => {},
            Err(e) => { return Err(e); },
        }
        Ok(res)
    }

    /// The default particle: at the origin, at rest, of unit mass.
    pub fn empty() -> (r: Particle)
        ensures
            particle_wf(r),
            r.position.value.x.num == 0 && r.position.value.y.num == 0
                && r.position.value.z.num == 0,
            r.velocity.value.x.num == 0 && r.velocity.value.y.num == 0
                && r.velocity.value.z.num == 0,
            pv(r.mass.value) == (1int, 1int),
    {
        Particle {
            position: VectorQuantity {
                value: Vector3::null_vector(),
                units: SI::new(1, 0, 0),
            },
            velocity: VectorQuantity {
                value: Vector3::null_vector(),
                units: SI::new(1, -1, 0),
            },
            mass: ScalarQuantity { value: Rat::one(), units: SI::new(0, 0, 1) },
        }
    }

    /// Replace the position; fails unless it is length-dimensioned, and
    /// then leaves the particle unchanged.
    pub fn set_position(&mut self, position: VectorQuantity) -> (r: Result<(), &'static str>)
        requires
            vq_wf(position),
        ensures
            r is Ok <==> position.units == unit_dim(Units::m),
            r is Ok ==> final(self).position == position
                && final(self).velocity == old(self).velocity
                && final(self).mass == old(self).mass,
            r is Err ==> *final(self) == *old(self) && r->Err_0@ == "incorrect position"@,
    {
        if !position.is_compatible(&Units::m.convert()) {
            return Err("incorrect position");
        }
        self.position = position;
        Ok(())
    }

    /// Replace the velocity; fails unless it is velocity-dimensioned, and
    /// then leaves the particle unchanged.
    pub fn set_velocity(&mut self, velocity: VectorQuantity) -> (r: Result<(), &'static str>)
        requires
            vq_wf(velocity),
        ensures
            r is Ok <==> velocity.units == unit_dim(Units::ms),
            r is Ok ==> final(self).velocity == velocity
                && final(self).position == old(self).position
                && final(self).mass == old(self).mass,
            r is Err ==> *final(self) == *old(self) && r->Err_0@ == "incorrect velocity"@,
    {
        if !velocity.is_compatible(&Units::ms.convert()) {
            return Err("incorrect velocity");
        }
        self.velocity = velocity;
        Ok(())
    }

    /// Replace the mass; fails unless it is mass-dimensioned and
    /// nonnegative, and then leaves the particle unchanged.
    pub fn set_mass(&mut self, mass: ScalarQuantity) -> (r: Result<(), &'static str>)
        requires
            sq_wf(mass),
        ensures
            r is Ok <==> mass.units == unit_dim(Units::kg) && mass.value.num >= 0,
            r is Ok ==> final(self).mass == mass
                && final(self).position == old(self).position
                && final(self).velocity == old(self).velocity,
            r is Err ==> *final(self) == *old(self) && r->Err_0@ == "incorrect mass"@,
    {
        if !mass.is_compatible(&Units::kg.convert()) {
            return Err("incorrect mass");
        }
        if mass.value.num < 0 {
            return Err("incorrect mass");
        }
        self.mass = mass;
        Ok(())
    }

    /// The position.
    pub fn get_position(&self) -> (r: VectorQuantity)
        ensures
            r == self.position,
    {
        self.position
    }

    /// The velocity.
    pub fn get_velocity(&self) -> (r: VectorQuantity)
        ensures
            r == self.velocity,
    {
        self.velocity
    }

    /// The mass.
    pub fn get_mass(&self) -> (r: ScalarQuantity)
        ensures
            r == self.mass,
    {
        self.mass
    }
}

/// An ordered sequence of particles; insertion order is preserved and is
/// only a stable iteration order for pairwise computations.
#[derive(Debug)]
pub struct ParticleSet {
    pub particles: Vec<Particle>,
}

/// Every particle of the set is valid.
pub open spec fn ps_wf(ps: ParticleSet) -> bool {
    pseq_wf(ps.particles@)
}

/// Exact value of the unhalved kinetic contribution of one particle: its
/// mass times the squared length of its velocity.
pub open spec fn pke_term(p: Particle) -> (int, int) {
    pmul(pv(p.mass.value), pdot(p.velocity.value, p.velocity.value))
}

/// Exact value of twice the kinetic energy of a sequence of particles:
/// the sum of `m * |v|^2` over the particles.
pub open spec fn pke_raw(s: Seq<Particle>) -> (int, int)
    decreases s.len(),
{
    if s.len() == 0 {
        (0int, 1int)
    } else {
        padd(pke_raw(s.drop_last()), pke_term(s.last()))
    }
}

/// Exact value of the kinetic energy of a sequence of particles: half the
/// sum of `m * |v|^2`.
pub open spec fn pke_sum(s: Seq<Particle>) -> (int, int) {
    pmul(pke_raw(s), (1int, 2int))
}

/// Envelope under which the kinetic energy is guaranteed to be computed:
/// every velocity component and every mass is an integer (denominator
/// one) of magnitude at most `0x100000`, for a set of any size.
pub open spec fn ke_env(s: Seq<Particle>) -> bool {
    forall|i: int| 0 <= i < s.len() ==> {
        &&& (#[trigger] s[i]).velocity.value.x.den == 1
        &&& vstd::math::abs(s[i].velocity.value.x.num as int) <= 0x100000
        &&& s[i].velocity.value.y.den == 1
        &&& vstd::math::abs(s[i].velocity.value.y.num as int) <= 0x100000
        &&& s[i].velocity.value.z.den == 1
        &&& vstd::math::abs(s[i].velocity.value.z.num as int) <= 0x100000
        &&& s[i].mass.value.den == 1
        &&& s[i].mass.value.num <= 0x100000
    }
}

/// Exact squared distance between two position vectors.
pub open spec fn psep_dot(a: Vector3, b: Vector3) -> (int, int) {
    let dx = psub(pv(a.x), pv(b.x));
    let dy = psub(pv(a.y), pv(b.y));
    let dz = psub(pv(a.z), pv(b.z));
    padd(padd(pmul(dx, dx), pmul(dy, dy)), pmul(dz, dz))
}

/// `d` is the floor-style square root of the squared distance between `a`
/// and `b`: the separation used by the potential-energy sum.
pub open spec fn is_sep_of(d: Rat, a: Vector3, b: Vector3) -> bool {
    &&& rat_wf(d)
    &&& d.num >= 0
    &&& sqrt_lb(d, psep_dot(a, b))
    &&& sqrt_ub(d, psep_dot(a, b), SQRT_SCALE as int)
}

/// The first `k` entries of `ds`, read as a row-major square table of
/// separations, hold the pairwise separations of `s`.
pub open spec fn seps_ok(s: Seq<Particle>, ds: Seq<Rat>, k: int) -> bool {
    forall|q: int| 0 <= q < k && q / (s.len() as int) != q % (s.len() as int)
        ==> is_sep_of(#[trigger] ds[q], s[q / (s.len() as int)].position.value,
            s[q % (s.len() as int)].position.value)
}

/// Exact value of one directed-pair potential term: `G * mi * mj / d`.
pub open spec fn ppe_term(pi: Particle, pj: Particle, d: Rat) -> (int, int) {
    pdiv(pmul(pmul(unit_val(Units::G), pv(pi.mass.value)), pv(pj.mass.value)), pv(d))
}

/// The directed-pair term `G * m_i * m_j / d`, rounded down onto the
/// `1 / QUANT` grid: the integer numerator of the rounded term.
pub open spec fn pe_qnum(pi: Particle, pj: Particle, d: Rat) -> int {
    (ppe_term(pi, pj, d).0 * QUANT) / ppe_term(pi, pj, d).1
}

/// Numerator of the potential energy accumulated over the first `k`
/// directed pairs (row-major, self-pairs skipped), given the separations:
/// the sum of the grid-rounded pair terms, in units of `1 / QUANT`.
pub open spec fn ppe_fold(s: Seq<Particle>, ds: Seq<Rat>, k: nat) -> int
    decreases k,
{
    if k == 0 {
        0
    } else {
        let q = (k - 1) as int;
        let n = s.len() as int;
        if q / n == q % n {
            ppe_fold(s, ds, (k - 1) as nat)
        } else {
            ppe_fold(s, ds, (k - 1) as nat) + pe_qnum(s[q / n], s[q % n], ds[q])
        }
    }
}

/// There is a table of pairwise separations, each a floor square root of
/// the exact squared distance, under which `v` is exactly the negated sum
/// of the grid-rounded pair terms.
pub open spec fn pe_witness(s: Seq<Particle>, ds: Seq<Rat>, v: Rat) -> bool {
    &&& ds.len() == s.len() * s.len()
    &&& seps_ok(s, ds, (s.len() * s.len()) as int)
    &&& rat_has(v, (0 - ppe_fold(s, ds, (s.len() * s.len()) as nat), QUANT as int))
}

/// Envelope under which the potential energy is guaranteed to be
/// computed: at most `0xffff` particles, every position component and
/// every mass an integer (denominator one) of magnitude at most
/// `0x100000`, and every pair of distinct particles at squared distance
/// at least one.
pub open spec fn pe_env(s: Seq<Particle>) -> bool {
    &&& s.len() <= 0xffff
    &&& forall|i: int| 0 <= i < s.len() ==> {
        &&& (#[trigger] s[i]).position.value.x.den == 1
        &&& vstd::math::abs(s[i].position.value.x.num as int) <= 0x100000
        &&& s[i].position.value.y.den == 1
        &&& vstd::math::abs(s[i].position.value.y.num as int) <= 0x100000
        &&& s[i].position.value.z.den == 1
        &&& vstd::math::abs(s[i].position.value.z.num as int) <= 0x100000
        &&& s[i].mass.value.den == 1
        &&& s[i].mass.value.num <= 0x100000
    }
    &&& forall|i: int, j: int| 0 <= i < s.len() && 0 <= j < s.len() && i != j
        ==> psep_dot((#[trigger] s[i]).position.value, (#[trigger] s[j]).position.value).0
            >= psep_dot(s[i].position.value, s[j].position.value).1
}

/// The potential-energy contract: some valid separation table witnesses
/// the value `v` as the negated sum of the grid-rounded pair terms.
pub open spec fn pe_post(s: Seq<Particle>, v: Rat) -> bool {
    exists|ds: Seq<Rat>| pe_witness(s, ds, v)
}

impl ParticleSet {
    /// An empty particle set.
    pub fn new() -> (r: Result<ParticleSet, &'static str>)
        ensures
            r is Ok,
            r->Ok_0.particles@.len() == 0,
            ps_wf(r->Ok_0),
    {
        Ok(ParticleSet { particles: Vec::new() })
    }

    /// Append one particle; the order of the others is preserved.
    pub fn add_particle(&mut self, p: Particle)
        ensures
            final(self).particles@ == old(self).particles@.push(p),
    {
        self.particles.push(p);
    }

    /// Append all of another set's particles, preserving both orders.
    pub fn add_particles(&mut self, ps: ParticleSet)
        ensures
            final(self).particles@ == old(self).particles@ + ps.particles@,
    {
        let n = ps.particles.len();
        let mut j: usize = 0;
        while j < n
            invariant
                n == ps.particles@.len(),
                j <= n,
                self.particles@ == old(self).particles@ + ps.particles@.take(j as int),
            decreases n - j,
        {
            let p = ps.particles[j];
            self.particles.push(p);
            proof {
                assert(ps.particles@.take(j + 1) =~= ps.particles@.take(j as int).push(
                    ps.particles@[j as int]));
                assert(old(self).particles@ + ps.particles@.take(j + 1)
                    =~= (old(self).particles@ + ps.particles@.take(j as int)).push(
                        ps.particles@[j as int]));
            }
            j = j + 1;
        }
        proof {
            assert(ps.particles@.take(n as int) =~= ps.particles@);
        }
    }

    /// Kinetic energy of the set: the exact sum of `m * |v|^2 / 2` over
    /// all particles, as an energy-dimensioned quantity. Fails only on
    /// `i128` overflow; never on an empty set, nor within the integer
    /// [`ke_env`] envelope, whatever the size of the set.
    pub fn get_kinetic_energy(&self) -> (r: Result<ScalarQuantity, &'static str>)
        requires
            ps_wf(*self),
        ensures
            r is Ok ==> sq_wf(r->Ok_0)
                && r->Ok_0.units == unit_dim(Units::J)
                && rat_has(r->Ok_0.value, pke_sum(self.particles@)),
            self.particles@.len() == 0 ==> r is Ok && r->Ok_0.value.num == 0,
            ke_env(self.particles@) ==> r is Ok,
    {
        let ghost s = self.particles@;
        let ghost env: bool = ke_env(s);
        let half = Rat { num: 1, den: 2 };
        let mut acc = Rat::zero();
        let mut i: usize = 0;
        while i < self.particles.len()
            invariant
                ps_wf(*self),
                s == self.particles@,
                i <= s.len(),
                rat_wf(acc),
                rat_has(acc, pke_raw(s.take(i as int))),
                pke_raw(s.take(i as int)).1 > 0,
                i == 0 ==> acc.num == 0,
                env == ke_env(s),
                env ==> acc.den == 1
                    && vstd::math::abs(acc.num as int) <= i as int * 0x3000000000000000,
                half == (Rat { num: 1, den: 2 }),
            decreases s.len() - i,
        {
            let p = self.particles[i];
            let v = p.velocity.value;
            proof {
                if env {
                    assert(crate::vector::mag_env(v));
                }
            }
            let d = match v.dot(&v) {
                Some(w) => w,
                None => {
                    proof {
                        if env {
                            assert(false);
                        }
                    }
                    return Err("numeric overflow");
                },
            };
            proof {
                let pm = pv(p.mass.value);
                let pd = pdot(v, v);
                lemma_pdot_self_sign(v);
                if env {
                    // integer components: the dot is an integer of bounded size
                    assert(d.den as int <= ((v.x.den as int * v.x.den as int)
                        * (v.y.den as int * v.y.den as int))
                        * (v.z.den as int * v.z.den as int));
                    assert(d.den == 1) by (nonlinear_arith)
                        requires
                            d.den as int <= ((v.x.den as int * v.x.den as int)
                                * (v.y.den as int * v.y.den as int))
                                * (v.z.den as int * v.z.den as int),
                            v.x.den == 1 && v.y.den == 1 && v.z.den == 1,
                            d.den > 0,
                    ;
                    assert(pd.1 == 1 && 0 <= pd.0 <= 0x30000000000) by (nonlinear_arith)
                        requires
                            pd == padd(
                                padd(pmul(pv(v.x), pv(v.x)), pmul(pv(v.y), pv(v.y))),
                                pmul(pv(v.z), pv(v.z)),
                            ),
                            v.x.den == 1 && v.y.den == 1 && v.z.den == 1,
                            vstd::math::abs(v.x.num as int) <= 0x100000,
                            vstd::math::abs(v.y.num as int) <= 0x100000,
                            vstd::math::abs(v.z.num as int) <= 0x100000,
                    ;
                    assert(0 <= d.num <= 0x30000000000) by (nonlinear_arith)
                        requires
                            d.num * pd.1 == pd.0 * d.den,
                            pd.1 == 1 && 0 <= pd.0 <= 0x30000000000,
                            d.den == 1,
                    ;
                    assert(crate::rational::mul_fits(pm, pv(d))) by (nonlinear_arith)
                        requires
                            0 <= p.mass.value.num <= 0x100000,
                            p.mass.value.den == 1,
                            0 <= d.num <= 0x30000000000,
                            d.den == 1,
                            crate::rational::mul_fits(pm, pv(d))
                                == (crate::rational::in_rng(pm.0 * pv(d).0)
                                && crate::rational::in_rng(pm.1 * pv(d).1)),
                            pm == pv(p.mass.value),
                            crate::rational::in_rng(pm.0 * pv(d).0) == (i128::MIN
                                < pm.0 * pv(d).0 <= i128::MAX),
                            crate::rational::in_rng(pm.1 * pv(d).1) == (i128::MIN
                                < pm.1 * pv(d).1 <= i128::MAX),
                    ;
                }
            }
            let t1 = match p.mass.value.mul(d) {
                Some(w) => w,
                None => {
                    proof {
                        if env {
                            assert(false);
                        }
                    }
                    return Err("numeric overflow");
                },
            };
            proof {
                if env {
                    assert(t1.den == 1) by (nonlinear_arith)
                        requires
                            t1.den as int <= p.mass.value.den as int * d.den as int,
                            p.mass.value.den == 1 && d.den == 1,
                            t1.den > 0,
                    ;
                    assert(vstd::math::abs(t1.num as int) <= 0x3000000000000000)
                        by (nonlinear_arith)
                        requires
                            vstd::math::abs(t1.num as int)
                                <= vstd::math::abs(p.mass.value.num as int * d.num as int),
                            vstd::math::abs(p.mass.value.num as int * d.num as int)
                                == vstd::math::abs(p.mass.value.num as int)
                                    * vstd::math::abs(d.num as int),
                            vstd::math::abs(p.mass.value.num as int) <= 0x100000,
                            vstd::math::abs(d.num as int) <= 0x30000000000,
                    ;
                    assert(vstd::math::abs(p.mass.value.num as int * d.num as int)
                        == vstd::math::abs(p.mass.value.num as int)
                            * vstd::math::abs(d.num as int)) by (nonlinear_arith);
                    assert(crate::rational::add_fits(pv(acc), pv(t1))) by (nonlinear_arith)
                        requires
                            acc.den == 1 && t1.den == 1,
                            vstd::math::abs(acc.num as int)
                                <= i as int * 0x3000000000000000,
                            vstd::math::abs(t1.num as int) <= 0x3000000000000000,
                            i as int + 1 <= 0x10000000000000000,
                            crate::rational::add_fits(pv(acc), pv(t1))
                                == (crate::rational::in_rng(acc.num as int * 1)
                                && crate::rational::in_rng(t1.num as int * 1)
                                && crate::rational::in_rng(acc.num as int * 1
                                    + t1.num as int * 1)
                                && crate::rational::in_rng(1int * 1)),
                            crate::rational::in_rng(acc.num as int * 1) == (i128::MIN
                                < acc.num as int * 1 <= i128::MAX),
                            crate::rational::in_rng(t1.num as int * 1) == (i128::MIN
                                < t1.num as int * 1 <= i128::MAX),
                            crate::rational::in_rng(acc.num as int * 1 + t1.num as int * 1)
                                == (i128::MIN < acc.num as int * 1 + t1.num as int * 1
                                <= i128::MAX),
                            crate::rational::in_rng(1int * 1) == (i128::MIN
                                < 1int * 1 <= i128::MAX),
                    ;
                }
            }
            let acc2 = match acc.add(t1) {
                Some(w) => w,
                None => {
                    proof {
                        if env {
                            assert(false);
                        }
                    }
                    return Err("numeric overflow");
                },
            };
            proof {
                let pm = pv(p.mass.value);
                let pd = pdot(v, v);
                lemma_pdot_self_sign(v);
                // t1 holds m * (v . v), the unhalved term of p
                lemma_pmul_peq(pm, pm, pv(d), pd);
                assert(pmul(pm, pv(d)).1 != 0) by (nonlinear_arith)
                    requires pmul(pm, pv(d)).1 == pm.1 * d.den && pm.1 > 0 && d.den > 0;
                lemma_rat_has_trans(t1, pmul(pm, pv(d)), pke_term(p));
                // acc2 holds the extended sum
                lemma_padd_peq(pv(acc), pke_raw(s.take(i as int)), pv(t1), pke_term(p));
                assert(padd(pv(acc), pv(t1)).1 != 0) by (nonlinear_arith)
                    requires padd(pv(acc), pv(t1)).1 == acc.den * t1.den && acc.den > 0
                        && t1.den > 0;
                lemma_rat_has_trans(acc2, padd(pv(acc), pv(t1)),
                    padd(pke_raw(s.take(i as int)), pke_term(p)));
                assert(s.take(i + 1).drop_last() =~= s.take(i as int));
                assert(s.take(i + 1).last() == p);
                assert(pke_raw(s.take(i + 1))
                    == padd(pke_raw(s.take(i as int)), pke_term(p)));
                assert(pke_raw(s.take(i + 1)).1 > 0) by (nonlinear_arith)
                    requires
                        pke_raw(s.take(i + 1)).1
                            == pke_raw(s.take(i as int)).1 * pke_term(p).1,
                        pke_raw(s.take(i as int)).1 > 0,
                        pke_term(p).1 == p.mass.value.den * pdot(v, v).1,
                        p.mass.value.den > 0,
                        pdot(v, v).1 > 0,
                ;
                if env {
                    assert(vstd::math::abs(acc2.num as int)
                        <= (i as int + 1) * 0x3000000000000000) by (nonlinear_arith)
                        requires
                            vstd::math::abs(acc2.num as int)
                                <= vstd::math::abs(acc.num as int) * t1.den
                                    + vstd::math::abs(t1.num as int) * acc.den,
                            acc.den == 1 && t1.den == 1,
                            vstd::math::abs(acc.num as int)
                                <= i as int * 0x3000000000000000,
                            vstd::math::abs(t1.num as int) <= 0x3000000000000000,
                    ;
                    assert(acc2.den == 1) by (nonlinear_arith)
                        requires
                            acc2.den as int <= acc.den as int * t1.den as int,
                            acc.den == 1 && t1.den == 1,
                            acc2.den > 0,
                    ;
                }
            }
            acc = acc2;
            i = i + 1;
        }
        proof {
            assert(s.take(s.len() as int) =~= s);
            if env || s.len() == 0 {
                assert(crate::rational::mul_fits(pv(acc), pv(half))) by (nonlinear_arith)
                    requires
                        acc.den == 1,
                        half == (Rat { num: 1, den: 2 }),
                        i128::MIN < acc.num,
                        crate::rational::mul_fits(pv(acc), pv(half))
                            == (crate::rational::in_rng(acc.num as int * 1)
                            && crate::rational::in_rng(acc.den as int * 2)),
                        crate::rational::in_rng(acc.num as int * 1) == (i128::MIN
                            < acc.num as int * 1 <= i128::MAX),
                        crate::rational::in_rng(acc.den as int * 2) == (i128::MIN
                            < acc.den as int * 2 <= i128::MAX),
                ;
            }
        }
        let ke = match acc.mul(half) {
            Some(w) => w,
            None => {
                proof {
                    if env || s.len() == 0 {
                        assert(false);
                    }
                }
                return Err("numeric overflow");
            },
        };
        proof {
            lemma_pmul_peq(pv(acc), pke_raw(s), (1int, 2int), (1int, 2int));
            assert(pmul(pv(acc), (1int, 2int)).1 != 0) by (nonlinear_arith)
                requires pmul(pv(acc), (1int, 2int)).1 == acc.den * 2 && acc.den > 0;
            lemma_rat_has_trans(ke, pmul(pv(acc), (1int, 2int)), pke_sum(s));
            if s.len() == 0 {
                assert(vstd::math::abs(ke.num as int)
                    <= vstd::math::abs(acc.num as int * half.num as int));
                assert(ke.num == 0) by (nonlinear_arith)
                    requires
                        vstd::math::abs(ke.num as int)
                            <= vstd::math::abs(acc.num as int * half.num as int),
                        acc.num == 0,
                        half == (Rat { num: 1, den: 2 }),
                ;
            }
        }
        Ok(ScalarQuantity { value: ke, units: SI { meters: 2, seconds: -2, kilograms: 1 } })
    }

    /// The table of pairwise separations: entry `i * n + j` is the floor
    /// square root of the exact squared distance between particles `i` and
    /// `j`; diagonal entries are unused placeholders.
    fn compute_separations(&self) -> (r: Result<Vec<Rat>, &'static str>)
        requires
            ps_wf(*self),
        ensures
            r is Ok ==> r->Ok_0@.len() == self.particles@.len() * self.particles@.len(),
            r is Ok ==> seps_ok(self.particles@, r->Ok_0@,
                (self.particles@.len() * self.particles@.len()) as int),
            r is Ok ==> forall|q: int| 0 <= q < r->Ok_0@.len()
                ==> rat_wf(#[trigger] r->Ok_0@[q]) && r->Ok_0@[q].num >= 0,
            r is Ok ==> forall|q: int| 0 <= q < r->Ok_0@.len()
                && q / (self.particles@.len() as int) != q % (self.particles@.len() as int)
                ==> (#[trigger] r->Ok_0@[q]).den == SQRT_SCALE,
            self.particles@.len() <= 1 ==> r is Ok,
            pe_env(self.particles@) ==> r is Ok,
            pe_env(self.particles@) && r is Ok ==> forall|q: int| 0 <= q < r->Ok_0@.len()
                && q / (self.particles@.len() as int) != q % (self.particles@.len() as int)
                ==> SQRT_SCALE <= (#[trigger] r->Ok_0@[q]).num <= 0x40000000000,
    {
        let ghost s = self.particles@;
        let ghost env: bool = pe_env(s);
        let n = self.particles.len();
        let ghost nn = n as int;
        let mut out: Vec<Rat> = Vec::new();
        let mut i: usize = 0;
        while i < n
            invariant
                ps_wf(*self),
                s == self.particles@,
                env == pe_env(s),
                n == s.len(),
                nn == n as int,
                i <= n,
                out@.len() == i as int * nn,
                seps_ok(s, out@, i as int * nn),
                forall|q: int| 0 <= q < out@.len() ==> rat_wf(#[trigger] out@[q])
                    && out@[q].num >= 0,
                forall|q: int| 0 <= q < out@.len() && q / nn != q % nn
                    ==> (#[trigger] out@[q]).den == SQRT_SCALE,
                env ==> forall|q: int| 0 <= q < out@.len() && q / nn != q % nn
                    ==> SQRT_SCALE <= (#[trigger] out@[q]).num <= 0x40000000000,
            decreases n - i,
        {
            let mut j: usize = 0;
            while j < n
                invariant
                    ps_wf(*self),
                    s == self.particles@,
                    env == pe_env(s),
                    n == s.len(),
                    nn == n as int,
                    i < n,
                    j <= n,
                    out@.len() == i as int * nn + j as int,
                    seps_ok(s, out@, i as int * nn + j as int),
                    forall|q: int| 0 <= q < out@.len() ==> rat_wf(#[trigger] out@[q])
                        && out@[q].num >= 0,
                    forall|q: int| 0 <= q < out@.len() && q / nn != q % nn
                        ==> (#[trigger] out@[q]).den == SQRT_SCALE,
                    env ==> forall|q: int| 0 <= q < out@.len() && q / nn != q % nn
                        ==> SQRT_SCALE <= (#[trigger] out@[q]).num <= 0x40000000000,
                decreases n - j,
            {
                let ghost k = i as int * nn + j as int;
                proof {
                    assert(k / nn == i as int && k % nn == j as int) by (nonlinear_arith)
                        requires
                            k == i as int * nn + j as int,
                            0 <= i as int && (i as int) < nn,
                            0 <= j as int && (j as int) < nn,
                    ;
                }
                if i == j {
                    out.push(Rat::zero());
                } else {
                    let a = self.particles[i].position.value;
                    let b = self.particles[j].position.value;
                    proof {
                        if env {
                            lemma_sum_in_rng(a.x.num as int, -(b.x.num as int),
                                0x100000, 0x100000);
                            lemma_sum_in_rng(a.y.num as int, -(b.y.num as int),
                                0x100000, 0x100000);
                            lemma_sum_in_rng(a.z.num as int, -(b.z.num as int),
                                0x100000, 0x100000);
                            assert(crate::rational::sub_fits(pv(a.x), pv(b.x))
                                && crate::rational::sub_fits(pv(a.y), pv(b.y))
                                && crate::rational::sub_fits(pv(a.z), pv(b.z)))
                                by (nonlinear_arith)
                                requires
                                    a.x.den == 1 && b.x.den == 1 && a.y.den == 1
                                        && b.y.den == 1 && a.z.den == 1 && b.z.den == 1,
                                    i128::MIN < a.x.num && i128::MIN < a.y.num
                                        && i128::MIN < a.z.num,
                                    i128::MIN < b.x.num && i128::MIN < b.y.num
                                        && i128::MIN < b.z.num,
                                    vstd::math::abs(a.x.num as int) <= 0x100000,
                                    vstd::math::abs(a.y.num as int) <= 0x100000,
                                    vstd::math::abs(a.z.num as int) <= 0x100000,
                                    vstd::math::abs(b.x.num as int) <= 0x100000,
                                    vstd::math::abs(b.y.num as int) <= 0x100000,
                                    vstd::math::abs(b.z.num as int) <= 0x100000,
                                    crate::rational::in_rng(a.x.num - b.x.num),
                                    crate::rational::in_rng(a.y.num - b.y.num),
                                    crate::rational::in_rng(a.z.num - b.z.num),
                            ;
                        }
                    }
                    let diff = match a.sub(b) {
                        Some(w) => w,
                        None => {
                            proof {
                                if env {
                                    assert(false);
                                }
                            }
                            return Err("numeric overflow");
                        },
                    };
                    proof {
                        if env {
                            assert(crate::vector::mag_env(diff)) by (nonlinear_arith)
                                requires
                                    v3_wf(diff),
                                    diff.x.den as int <= a.x.den as int * b.x.den as int,
                                    diff.y.den as int <= a.y.den as int * b.y.den as int,
                                    diff.z.den as int <= a.z.den as int * b.z.den as int,
                                    vstd::math::abs(diff.x.num as int)
                                        <= vstd::math::abs(a.x.num as int) * b.x.den
                                            + vstd::math::abs(b.x.num as int) * a.x.den,
                                    vstd::math::abs(diff.y.num as int)
                                        <= vstd::math::abs(a.y.num as int) * b.y.den
                                            + vstd::math::abs(b.y.num as int) * a.y.den,
                                    vstd::math::abs(diff.z.num as int)
                                        <= vstd::math::abs(a.z.num as int) * b.z.den
                                            + vstd::math::abs(b.z.num as int) * a.z.den,
                                    a.x.den == 1 && b.x.den == 1 && a.y.den == 1
                                        && b.y.den == 1 && a.z.den == 1 && b.z.den == 1,
                                    vstd::math::abs(a.x.num as int) <= 0x100000,
                                    vstd::math::abs(a.y.num as int) <= 0x100000,
                                    vstd::math::abs(a.z.num as int) <= 0x100000,
                                    vstd::math::abs(b.x.num as int) <= 0x100000,
                                    vstd::math::abs(b.y.num as int) <= 0x100000,
                                    vstd::math::abs(b.z.num as int) <= 0x100000,
                                    crate::vector::mag_env(diff)
                                        == crate::vector::v3_small(diff, 0x400000, 0x400),
                                    crate::vector::v3_small(diff, 0x400000, 0x400)
                                        == (vstd::math::abs(diff.x.num as int) <= 0x400000
                                        && diff.x.den as int <= 0x400
                                        && vstd::math::abs(diff.y.num as int) <= 0x400000
                                        && diff.y.den as int <= 0x400
                                        && vstd::math::abs(diff.z.num as int) <= 0x400000
                                        && diff.z.den as int <= 0x400),
                            ;
                        }
                    }
                    let dd = match diff.dot(&diff) {
                        Some(w) => w,
                        None => {
                            proof {
                                if env {
                                    assert(false);
                                }
                            }
                            return Err("numeric overflow");
                        },
                    };
                    proof {
                        lemma_dot_self_nonneg(dd, diff);
                        lemma_diff_dot_exact(a, b, diff, dd);
                        if env {
                            // integer positions make the squared distance a
                            // bounded integer, so the square root always fits
                            assert(dd.den == 1) by (nonlinear_arith)
                                requires
                                    dd.den as int <= ((diff.x.den as int * diff.x.den as int)
                                        * (diff.y.den as int * diff.y.den as int))
                                        * (diff.z.den as int * diff.z.den as int),
                                    diff.x.den as int <= a.x.den as int * b.x.den as int,
                                    diff.y.den as int <= a.y.den as int * b.y.den as int,
                                    diff.z.den as int <= a.z.den as int * b.z.den as int,
                                    a.x.den == 1 && b.x.den == 1 && a.y.den == 1
                                        && b.y.den == 1 && a.z.den == 1 && b.z.den == 1,
                                    diff.x.den > 0 && diff.y.den > 0 && diff.z.den > 0,
                                    dd.den > 0,
                            ;
                            let dx = psub(pv(a.x), pv(b.x));
                            let dy = psub(pv(a.y), pv(b.y));
                            let dz = psub(pv(a.z), pv(b.z));
                            assert(psep_dot(a, b)
                                == padd(padd(pmul(dx, dx), pmul(dy, dy)), pmul(dz, dz)));
                            assert(psep_dot(a, b).1 == 1
                                && 0 <= psep_dot(a, b).0 <= 0xc0000000000)
                                by (nonlinear_arith)
                                requires
                                    psep_dot(a, b) == padd(padd(pmul(dx, dx), pmul(dy, dy)),
                                        pmul(dz, dz)),
                                    dx == psub(pv(a.x), pv(b.x)),
                                    dy == psub(pv(a.y), pv(b.y)),
                                    dz == psub(pv(a.z), pv(b.z)),
                                    a.x.den == 1 && b.x.den == 1 && a.y.den == 1
                                        && b.y.den == 1 && a.z.den == 1 && b.z.den == 1,
                                    vstd::math::abs(a.x.num as int) <= 0x100000,
                                    vstd::math::abs(a.y.num as int) <= 0x100000,
                                    vstd::math::abs(a.z.num as int) <= 0x100000,
                                    vstd::math::abs(b.x.num as int) <= 0x100000,
                                    vstd::math::abs(b.y.num as int) <= 0x100000,
                                    vstd::math::abs(b.z.num as int) <= 0x100000,
                            ;
                            assert(0 <= dd.num <= 0xc0000000000) by (nonlinear_arith)
                                requires
                                    dd.num * psep_dot(a, b).1 == psep_dot(a, b).0 * dd.den,
                                    psep_dot(a, b).1 == 1,
                                    0 <= psep_dot(a, b).0 <= 0xc0000000000,
                                    dd.den == 1,
                                    dd.num >= 0,
                            ;
                            assert(crate::rational::sqrt_fits(pv(dd), SQRT_SCALE as int))
                                by (nonlinear_arith)
                                requires
                                    0 <= dd.num <= 0xc0000000000,
                                    crate::rational::sqrt_fits(pv(dd), SQRT_SCALE as int)
                                        == crate::rational::in_rng(dd.num as int
                                        * ((SQRT_SCALE as int) * (SQRT_SCALE as int))),
                                    SQRT_SCALE == 1000000,
                                    crate::rational::in_rng(dd.num as int
                                        * ((SQRT_SCALE as int) * (SQRT_SCALE as int)))
                                        == (i128::MIN < dd.num as int
                                        * ((SQRT_SCALE as int) * (SQRT_SCALE as int))
                                        <= i128::MAX),
                            ;
                        }
                    }
                    let m = match dd.sqrt_floor() {
                        Some(w) => w,
                        None => {
                            proof {
                                if env {
                                    assert(false);
                                }
                            }
                            return Err("numeric overflow");
                        },
                    };
                    proof {
                        lemma_sqrt_bounds_transfer(m, dd, psep_dot(a, b), SQRT_SCALE as int);
                        assert(is_sep_of(m, a, b));
                        if env {
                            // upper bound on the rounded distance
                            assert(m.num <= 0x40000000000) by (nonlinear_arith)
                                requires
                                    m.num * m.num <= pv(dd).0
                                        * ((SQRT_SCALE as int) * (SQRT_SCALE as int)),
                                    0 <= dd.num <= 0xc0000000000,
                                    pv(dd) == (dd.num as int, dd.den as int),
                                    SQRT_SCALE == 1000000,
                                    m.num >= 0,
                            ;
                            // squared distance at least one forces at least a
                            // full square-root grid cell
                            assert(psep_dot(a, b).0 >= psep_dot(a, b).1);
                            assert(m.num >= SQRT_SCALE) by (nonlinear_arith)
                                requires
                                    psep_dot(a, b).0 * ((m.den * (SQRT_SCALE as int))
                                        * (m.den * (SQRT_SCALE as int)))
                                        < ((m.num * (SQRT_SCALE as int) + m.den)
                                        * (m.num * (SQRT_SCALE as int) + m.den))
                                        * psep_dot(a, b).1,
                                    psep_dot(a, b).0 >= psep_dot(a, b).1,
                                    psep_dot(a, b).1 > 0,
                                    m.den == SQRT_SCALE,
                                    SQRT_SCALE == 1000000,
                                    m.num >= 0,
                            ;
                        }
                    }
                    out.push(m);
                }
                proof {
                    assert(seps_ok(s, out@, k + 1));
                }
                j = j + 1;
            }
            proof {
                assert((i + 1) as int * nn == i as int * nn + nn) by (nonlinear_arith);
            }
            i = i + 1;
        }
        proof {
            assert(nn * nn == out@.len());
        }
        Ok(out)
    }

    /// The potential-energy fold over a given separation table: the sum
    /// of the grid-rounded directed-pair terms, accumulated as an integer
    /// numerator over the `1 / QUANT` grid.
    fn fold_potential(&self, seps: &Vec<Rat>) -> (r: Result<Rat, &'static str>)
        requires
            ps_wf(*self),
            seps@.len() == self.particles@.len() * self.particles@.len(),
            forall|q: int| 0 <= q < seps@.len() ==> rat_wf(#[trigger] seps@[q])
                && seps@[q].num >= 0,
            forall|q: int| 0 <= q < seps@.len()
                && q / (self.particles@.len() as int) != q % (self.particles@.len() as int)
                ==> (#[trigger] seps@[q]).den == SQRT_SCALE,
            pe_env(self.particles@) ==> forall|q: int| 0 <= q < seps@.len()
                && q / (self.particles@.len() as int) != q % (self.particles@.len() as int)
                ==> SQRT_SCALE <= (#[trigger] seps@[q]).num <= 0x40000000000,
        ensures
            r is Ok ==> rat_wf(r->Ok_0)
                && rat_has(r->Ok_0, (0 - ppe_fold(self.particles@, seps@,
                    (self.particles@.len() * self.particles@.len()) as nat), QUANT as int)),
            self.particles@.len() <= 1 ==> r is Ok && r->Ok_0.num == 0,
            pe_env(self.particles@) ==> r is Ok,
    {
        let ghost s = self.particles@;
        let ghost ds = seps@;
        let ghost env: bool = pe_env(s);
        let n = self.particles.len();
        let total = match n.checked_mul(n) {
            Some(t) => t,
            None => {
                proof {
                    if n <= 1 {
                        assert((n as int) * (n as int) <= 1) by (nonlinear_arith)
                            requires 0 <= n as int <= 1;
                        assert(false);
                    }
                    if env {
                        assert((n as int) * (n as int) <= 0xfffe0001) by (nonlinear_arith)
                            requires 0 <= n as int <= 0xffff;
                        assert(false);
                    }
                }
                return Err("numeric overflow");
            },
        };
        let g = Units::G.convert().value;
        let mut acc: i128 = 0;
        let mut k: usize = 0;
        while k < total
            invariant
                ps_wf(*self),
                s == self.particles@,
                ds == seps@,
                env == pe_env(s),
                n == s.len(),
                total == n as int * n as int,
                ds.len() == total,
                forall|q: int| 0 <= q < ds.len() ==> rat_wf(#[trigger] ds[q])
                    && ds[q].num >= 0,
                forall|q: int| 0 <= q < ds.len() && q / (n as int) != q % (n as int)
                    ==> (#[trigger] ds[q]).den == SQRT_SCALE,
                env ==> forall|q: int| 0 <= q < ds.len() && q / (n as int) != q % (n as int)
                    ==> SQRT_SCALE <= (#[trigger] ds[q]).num <= 0x40000000000,
                k <= total,
                pv(g) == unit_val(Units::G),
                0 <= acc,
                acc as int == ppe_fold(s, ds, k as nat),
                env ==> acc as int <= k as int * 74000000000,
                n <= 1 ==> acc == 0,
            decreases total - k,
        {
            let i = k / n;
            let j = k % n;
            proof {
                vstd::arithmetic::div_mod::lemma_fundamental_div_mod(k as int, n as int);
                vstd::arithmetic::div_mod::lemma_mod_bound(k as int, n as int);
                assert(i as int == k as int / n as int && j as int == k as int % n as int);
                assert((i as int) < n as int) by (nonlinear_arith)
                    requires
                        (k as int) < (n as int) * (n as int),
                        k as int >= 0,
                        n as int > 0,
                        i as int == k as int / n as int,
                        k as int == (n as int) * (k as int / n as int) + k as int % n as int,
                        0 <= k as int % n as int && (k as int % n as int) < n as int,
                ;
            }
            if i != j {
                let pi = self.particles[i];
                let pj = self.particles[j];
                let d = seps[k];
                if d.num == 0 {
                    proof {
                        if env {
                            assert(false);
                        }
                    }
                    return Err("division by zero");
                }
                proof {
                    if env {
                        lemma_mul_in_rng(3337, pi.mass.value.num as int, 3337, 0x100000);
                        assert(crate::rational::mul_fits(pv(g), pv(pi.mass.value)))
                            by (nonlinear_arith)
                            requires
                                pv(g) == (3337int, 50000000000000int),
                                0 <= pi.mass.value.num <= 0x100000,
                                pi.mass.value.den == 1,
                                crate::rational::in_rng(3337 * pi.mass.value.num as int),
                                crate::rational::mul_fits(pv(g), pv(pi.mass.value))
                                    == (crate::rational::in_rng(3337
                                        * pi.mass.value.num as int)
                                    && crate::rational::in_rng(50000000000000int
                                        * pi.mass.value.den as int)),
                                crate::rational::in_rng(50000000000000int
                                    * pi.mass.value.den as int) == (i128::MIN
                                    < 50000000000000int * pi.mass.value.den as int
                                    <= i128::MAX),
                        ;
                    }
                }
                let t1 = match g.mul(pi.mass.value) {
                    Some(w) => w,
                    None => {
                        proof {
                            if env {
                                assert(false);
                            }
                        }
                        return Err("numeric overflow");
                    },
                };
                proof {
                    if env {
                        lemma_mul_in_rng(t1.num as int, pj.mass.value.num as int,
                            0xd0900000, 0x100000);
                        assert(vstd::math::abs(t1.num as int) <= 0xd0900000)
                            by (nonlinear_arith)
                            requires
                                vstd::math::abs(t1.num as int)
                                    <= vstd::math::abs(3337 * pi.mass.value.num as int),
                                vstd::math::abs(3337 * pi.mass.value.num as int)
                                    <= 3337 * 0x100000,
                        ;
                        lemma_mul_in_rng(3337, pi.mass.value.num as int, 3337, 0x100000);
                        assert(crate::rational::mul_fits(pv(t1), pv(pj.mass.value)))
                            by (nonlinear_arith)
                            requires
                                crate::rational::in_rng(t1.num as int
                                    * pj.mass.value.num as int),
                                t1.den as int <= 50000000000000,
                                t1.den > 0,
                                pj.mass.value.den == 1,
                                crate::rational::mul_fits(pv(t1), pv(pj.mass.value))
                                    == (crate::rational::in_rng(t1.num as int
                                        * pj.mass.value.num as int)
                                    && crate::rational::in_rng(t1.den as int
                                        * pj.mass.value.den as int)),
                                crate::rational::in_rng(t1.den as int
                                    * pj.mass.value.den as int) == (i128::MIN
                                    < t1.den as int * pj.mass.value.den as int <= i128::MAX),
                        ;
                    }
                }
                let t2 = match t1.mul(pj.mass.value) {
                    Some(w) => w,
                    None => {
                        proof {
                            if env {
                                assert(false);
                            }
                        }
                        return Err("numeric overflow");
                    },
                };
                proof {
                    if env {
                        // numerator and denominator of the exact term stay small
                        assert(vstd::math::abs(t2.num as int) <= 0xd090000000000
                            && t2.den as int <= 50000000000000) by (nonlinear_arith)
                            requires
                                vstd::math::abs(t2.num as int)
                                    <= vstd::math::abs(t1.num as int
                                        * pj.mass.value.num as int),
                                vstd::math::abs(t1.num as int * pj.mass.value.num as int)
                                    <= 0xd0900000 * 0x100000,
                                t2.den as int <= t1.den as int * pj.mass.value.den as int,
                                t1.den as int <= 50000000000000,
                                pj.mass.value.den == 1,
                                t1.den > 0,
                        ;
                        lemma_mul_in_rng(t1.num as int, pj.mass.value.num as int,
                            0xd0900000, 0x100000);
                        lemma_mul_in_rng(t2.num as int, d.den as int,
                            0xd090000000000, 0x100000);
                        lemma_mul_in_rng(t2.den as int, d.num as int,
                            50000000000000, 0x40000000000);
                        assert(crate::rational::div_fits(pv(t2), pv(d)))
                            by (nonlinear_arith)
                            requires
                                crate::rational::in_rng(t2.num as int * d.den as int),
                                crate::rational::in_rng(t2.den as int * d.num as int),
                                crate::rational::div_fits(pv(t2), pv(d))
                                    == (crate::rational::in_rng(t2.num as int * d.den as int)
                                    && crate::rational::in_rng(t2.den as int * d.num as int)),
                        ;
                    }
                }
                let t3 = match t2.div(d) {
                    Some(w) => w,
                    None => {
                        proof {
                            if env {
                                assert(false);
                            }
                        }
                        return Err("numeric overflow");
                    },
                };
                proof {
                    if env {
                        lemma_mul_in_rng(t2.num as int, d.den as int,
                            0xd090000000000, 0x100000);
                        assert(vstd::math::abs(t3.num as int) <= 0xd09000000000000000)
                            by (nonlinear_arith)
                            requires
                                vstd::math::abs(t3.num as int)
                                    <= vstd::math::abs(t2.num as int * d.den as int),
                                vstd::math::abs(t2.num as int * d.den as int)
                                    <= 0xd090000000000 * 0x100000,
                        ;
                        lemma_mul_in_rng(t3.num as int, QUANT as int,
                            0xd09000000000000000, QUANT as int);
                        assert(crate::rational::in_rng(pv(t3).0 * QUANT));
                    }
                }
                let tq = match t3.quantize_floor(QUANT) {
                    Some(w) => w,
                    None => {
                        proof {
                            if env {
                                assert(false);
                            }
                        }
                        return Err("numeric overflow");
                    },
                };
                proof {
                    let uv = unit_val(Units::G);
                    let pmi = pv(pi.mass.value);
                    let pmj = pv(pj.mass.value);
                    let t = ppe_term(pi, pj, d);
                    // t2 holds G * mi * mj
                    lemma_pmul_peq(pv(t1), pmul(uv, pmi), pmj, pmj);
                    assert(pmul(pv(t1), pmj).1 != 0) by (nonlinear_arith)
                        requires pmul(pv(t1), pmj).1 == t1.den * pj.mass.value.den
                            && t1.den > 0 && pj.mass.value.den > 0;
                    lemma_rat_has_trans(t2, pmul(pv(t1), pmj), pmul(pmul(uv, pmi), pmj));
                    // t3 holds the exact pair term
                    lemma_pdiv_peq(pv(t2), pmul(pmul(uv, pmi), pmj), pv(d), pv(d));
                    assert(pdiv(pv(t2), pv(d)).1 != 0) by (nonlinear_arith)
                        requires
                            pdiv(pv(t2), pv(d)).1 == t2.den * d.num,
                            t2.den > 0,
                            d.num > 0,
                    ;
                    lemma_rat_has_trans(t3, pdiv(pv(t2), pv(d)), t);
                    assert(t.1 > 0) by (nonlinear_arith)
                        requires
                            t.1 == ((unit_val(Units::G).1
                                * pi.mass.value.den) * pj.mass.value.den) * d.num,
                            unit_val(Units::G).1 > 0,
                            pi.mass.value.den > 0,
                            pj.mass.value.den > 0,
                            d.num > 0,
                    ;
                    // the rounded numerator is exactly the floor of the term
                    // scaled onto the grid
                    lemma_quant_transfer(tq.num as int, t3, t, QUANT as int);
                    assert(t.0 * QUANT == tq.num * t.1 + (t.0 * QUANT - tq.num * t.1));
                    assert(t.0 * QUANT - tq.num * t.1 < t.1) by (nonlinear_arith)
                        requires t.0 * QUANT < (tq.num as int + 1) * t.1;
                    vstd::arithmetic::div_mod::lemma_fundamental_div_mod_converse(
                        t.0 * QUANT, t.1, tq.num as int, t.0 * QUANT - tq.num * t.1);
                    assert(tq.num as int == pe_qnum(pi, pj, d));
                    // the term is nonnegative, so the sum keeps growing
                    assert(t.0 >= 0) by (nonlinear_arith)
                        requires
                            t.0 == ((unit_val(Units::G).0
                                * pi.mass.value.num) * pj.mass.value.num) * d.den,
                            unit_val(Units::G).0 > 0,
                            pi.mass.value.num >= 0,
                            pj.mass.value.num >= 0,
                            d.den > 0,
                    ;
                    assert(tq.num >= 0) by (nonlinear_arith)
                        requires
                            t.0 * QUANT < (tq.num as int + 1) * t.1,
                            t.0 >= 0,
                            t.1 > 0,
                            QUANT > 0,
                    ;
                    if env {
                        // the rounded term is bounded, so the sum fits
                        assert(t.0 <= 74 * t.1) by (nonlinear_arith)
                            requires
                                t.0 == ((unit_val(Units::G).0
                                    * pi.mass.value.num) * pj.mass.value.num) * d.den,
                                t.1 == ((unit_val(Units::G).1
                                    * pi.mass.value.den) * pj.mass.value.den) * d.num,
                                unit_val(Units::G) == (3337int, 50000000000000int),
                                0 <= pi.mass.value.num <= 0x100000,
                                0 <= pj.mass.value.num <= 0x100000,
                                pi.mass.value.den == 1,
                                pj.mass.value.den == 1,
                                d.den == SQRT_SCALE,
                                SQRT_SCALE == 1000000,
                                d.num >= 1000000,
                        ;
                        assert(tq.num as int <= 74 * QUANT) by (nonlinear_arith)
                            requires
                                tq.num * t.1 <= t.0 * QUANT,
                                t.0 <= 74 * t.1,
                                t.1 > 0,
                                QUANT > 0,
                        ;
                    }
                }
                let acc2 = match acc.checked_add(tq.num) {
                    Some(w) => w,
                    None => {
                        proof {
                            if env {
                                assert(total as int <= 0xfffe0001) by (nonlinear_arith)
                                    requires
                                        total as int == n as int * n as int,
                                        0 <= n as int <= 0xffff,
                                ;
                                assert(acc + tq.num <= (k as int + 1) * 74000000000)
                                    by (nonlinear_arith)
                                    requires
                                        acc as int <= k as int * 74000000000,
                                        tq.num as int <= 74 * QUANT,
                                        QUANT == 1000000000,
                                ;
                                assert((k as int + 1) * 74000000000
                                    <= 0x100000001 * 74000000000) by (nonlinear_arith)
                                    requires k as int + 1 <= 0x100000001;
                                assert(false);
                            }
                        }
                        return Err("numeric overflow");
                    },
                };
                proof {
                    assert(ppe_fold(s, ds, (k + 1) as nat)
                        == ppe_fold(s, ds, k as nat) + pe_qnum(pi, pj, ds[k as int]));
                    if env {
                        assert(acc2 as int <= (k as int + 1) * 74000000000)
                            by (nonlinear_arith)
                            requires
                                acc2 == acc + tq.num,
                                acc as int <= k as int * 74000000000,
                                tq.num as int <= 74 * QUANT,
                                QUANT == 1000000000,
                        ;
                    }
                }
                acc = acc2;
            } else {
                proof {
                    assert(ppe_fold(s, ds, (k + 1) as nat) == ppe_fold(s, ds, k as nat));
                    if env {
                        assert(acc as int <= (k as int + 1) * 74000000000)
                            by (nonlinear_arith)
                            requires acc as int <= k as int * 74000000000, acc >= 0;
                    }
                }
            }
            proof {
                if n <= 1 {
                    assert(i == j);
                }
            }
            k = k + 1;
        }
        let out = Rat { num: -acc, den: QUANT };
        Ok(out)
    }

    /// Potential energy of the set: the sum of `-G * mi * mj / d_ij` over
    /// all ordered pairs of distinct indices, where each `d_ij` is the
    /// floor square root of the exact squared distance and each directed
    /// term is rounded down onto the `1 / QUANT` grid before it is
    /// accumulated. Fails when two particles of a pair are closer than
    /// the square-root grid (their separation rounds to zero), and on
    /// `i128` overflow; never fails on a set of at most one particle,
    /// where it is exactly zero, nor within the integer [`pe_env`]
    /// envelope.
    pub fn get_potential_energy(&self) -> (r: Result<ScalarQuantity, &'static str>)
        requires
            ps_wf(*self),
        ensures
            r is Ok ==> sq_wf(r->Ok_0)
                && r->Ok_0.units == unit_dim(Units::J)
                && pe_post(self.particles@, r->Ok_0.value),
            self.particles@.len() <= 1 ==> r is Ok && r->Ok_0.value.num == 0,
            pe_env(self.particles@) ==> r is Ok,
    {
        let seps = match self.compute_separations() {
            Ok(v) => v,
            Err(e) => { return Err(e); },
        };
        let value = match self.fold_potential(&seps) {
            Ok(v) => v,
            Err(e) => { return Err(e); },
        };
        proof {
            assert(pe_witness(self.particles@, seps@, value));
        }
        Ok(ScalarQuantity { value, units: SI { meters: 2, seconds: -2, kilograms: 1 } })
    }
}

/// A rational holding the squared length of the exact componentwise
/// difference of `a` and `b` holds the exact squared distance between
/// them, whose denominator is positive.
pub proof fn lemma_diff_dot_exact(a: Vector3, b: Vector3, diff: Vector3, dd: Rat)
    requires
        v3_wf(a),
        v3_wf(b),
        v3_wf(diff),
        rat_wf(dd),
        rat_has(diff.x, psub(pv(a.x), pv(b.x))),
        rat_has(diff.y, psub(pv(a.y), pv(b.y))),
        rat_has(diff.z, psub(pv(a.z), pv(b.z))),
        rat_has(dd, pdot(diff, diff)),
    ensures
        rat_has(dd, psep_dot(a, b)),
        psep_dot(a, b).1 > 0,
{
    let dx = psub(pv(a.x), pv(b.x));
    let dy = psub(pv(a.y), pv(b.y));
    let dz = psub(pv(a.z), pv(b.z));
    lemma_pmul_peq(pv(diff.x), dx, pv(diff.x), dx);
    lemma_pmul_peq(pv(diff.y), dy, pv(diff.y), dy);
    lemma_pmul_peq(pv(diff.z), dz, pv(diff.z), dz);
    lemma_padd_peq(pmul(pv(diff.x), pv(diff.x)), pmul(dx, dx),
        pmul(pv(diff.y), pv(diff.y)), pmul(dy, dy));
    lemma_padd_peq(
        padd(pmul(pv(diff.x), pv(diff.x)), pmul(pv(diff.y), pv(diff.y))),
        padd(pmul(dx, dx), pmul(dy, dy)),
        pmul(pv(diff.z), pv(diff.z)),
        pmul(dz, dz),
    );
    lemma_pdot_self_sign(diff);
    lemma_rat_has_trans(dd, pdot(diff, diff), psep_dot(a, b));
    let e1 = a.x.den as int * b.x.den as int;
    let e2 = a.y.den as int * b.y.den as int;
    let e3 = a.z.den as int * b.z.den as int;
    assert(e1 > 0 && e2 > 0 && e3 > 0) by (nonlinear_arith)
        requires
            e1 == a.x.den as int * b.x.den as int,
            e2 == a.y.den as int * b.y.den as int,
            e3 == a.z.den as int * b.z.den as int,
            a.x.den > 0 && b.x.den > 0,
            a.y.den > 0 && b.y.den > 0,
            a.z.den > 0 && b.z.den > 0,
    ;
    assert(psep_dot(a, b).1 > 0) by (nonlinear_arith)
        requires
            psep_dot(a, b).1 == ((e1 * e1) * (e2 * e2)) * (e3 * e3),
            e1 > 0 && e2 > 0 && e3 > 0,
    ;
}

/// Law: the kinetic energy of a set whose velocities are all exactly zero
/// is exactly zero.
pub proof fn lemma_kinetic_energy_zero_velocities(s: Seq<Particle>)
    requires
        pseq_wf(s),
        forall|i: int| 0 <= i < s.len() ==> (#[trigger] s[i]).velocity.value.x.num == 0
            && s[i].velocity.value.y.num == 0 && s[i].velocity.value.z.num == 0,
    ensures
        pke_sum(s).0 == 0,
    decreases s.len(),
{
    lemma_kinetic_raw_zero_velocities(s);
    assert(pke_sum(s).0 == 0) by (nonlinear_arith)
        requires
            pke_sum(s) == pmul(pke_raw(s), (1int, 2int)),
            pke_raw(s).0 == 0,
    ;
}

/// The unhalved kinetic sum of a set whose velocities are all exactly
/// zero is exactly zero.
proof fn lemma_kinetic_raw_zero_velocities(s: Seq<Particle>)
    requires
        pseq_wf(s),
        forall|i: int| 0 <= i < s.len() ==> (#[trigger] s[i]).velocity.value.x.num == 0
            && s[i].velocity.value.y.num == 0 && s[i].velocity.value.z.num == 0,
    ensures
        pke_raw(s).0 == 0,
    decreases s.len(),
{
    if s.len() > 0 {
        lemma_kinetic_raw_zero_velocities(s.drop_last());
        let p = s.last();
        let v = p.velocity.value;
        let pd = pdot(v, v);
        assert(pd.0 == 0) by (nonlinear_arith)
            requires
                pd == padd(
                    padd(pmul(pv(v.x), pv(v.x)), pmul(pv(v.y), pv(v.y))),
                    pmul(pv(v.z), pv(v.z)),
                ),
                v.x.num == 0 && v.y.num == 0 && v.z.num == 0,
        ;
        assert(pke_term(p).0 == 0) by (nonlinear_arith)
            requires
                pke_term(p) == pmul(pv(p.mass.value), pd),
                pd.0 == 0,
        ;
        assert(pke_raw(s).0 == 0) by (nonlinear_arith)
            requires
                pke_raw(s) == padd(pke_raw(s.drop_last()), pke_term(p)),
                pke_raw(s.drop_last()).0 == 0,
                pke_term(p).0 == 0,
        ;
    }
}

} // verus!
