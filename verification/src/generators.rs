//! Initial-condition generators: validated parameters and assembly of
//! particle sets from raw sampled values.
//!
//! The random sampling of a Plummer sphere draws from continuous
//! distributions and runs through trigonometric and fractional-power
//! functions; that numeric work is left to the caller, which hands the
//! sampled positions, velocities and masses back to
//! [`Plummer::generate_particles`].

use vstd::prelude::*;
use crate::rational::{Rat, rat_wf, pv, peq};
use crate::vector::{Vector3, v3_wf};
use crate::quantity::{Units, unit_dim, unit_val, ScalarQuantity, sq_wf};
use crate::particles::{Particle, ParticleSet, ps_wf};

verus! {

/// Validated parameters of a Plummer sphere: the scale radius, the number
/// of particles, and the total mass, stripped to base units.
#[derive(Debug)]
pub struct Plummer {
    pub plummer_radius: Rat,
    pub n: usize,
    pub m0: Rat,
    pub g: Rat,
}

/// The validation contract of the Plummer parameters.
pub open spec fn plummer_wf(p: Plummer) -> bool {
    &&& rat_wf(p.plummer_radius) && p.plummer_radius.num >= 0
    &&& p.n != 0
    &&& rat_wf(p.m0) && p.m0.num > 0
    &&& rat_wf(p.g) && pv(p.g) == unit_val(Units::G)
}

impl Plummer {
    /// Validated Plummer parameters: `r` must be a nonnegative length,
    /// `n` nonzero, and `m` a positive mass; the first violation is
    /// reported.
    pub fn new(r: ScalarQuantity, n: usize, m: ScalarQuantity) -> (res: Result<
        Plummer,
        &'static str,
    >)
        requires
            sq_wf(r),
            sq_wf(m),
        ensures
            r.units != unit_dim(Units::m) || r.value.num < 0 ==> res is Err
                && res->Err_0@ == "incorrect radius"@,
            r.units == unit_dim(Units::m) && r.value.num >= 0 && n == 0 ==> res is Err
                && res->Err_0@ == "incorrect number of particles"@,
            r.units == unit_dim(Units::m) && r.value.num >= 0 && n != 0
                && (m.units != unit_dim(Units::kg) || m.value.num <= 0) ==> res is Err
                && res->Err_0@ == "incorrect mass"@,
            res is Ok <==> r.units == unit_dim(Units::m) && r.value.num >= 0 && n != 0
                && m.units == unit_dim(Units::kg) && m.value.num > 0,
            res is Ok ==> plummer_wf(res->Ok_0)
                && res->Ok_0.n == n
                && peq(pv(res->Ok_0.plummer_radius), pv(r.value))
                && peq(pv(res->Ok_0.m0), pv(m.value)),
    {
        if !r.is_compatible(&Units::m.convert()) {
            return Err("incorrect radius");
        }
        if r.value.num < 0 {
            return Err("incorrect radius");
        }
        if n == 0 {
            return Err("incorrect number of particles");
        }
        if !m.is_compatible(&Units::kg.convert()) {
            return Err("incorrect mass");
        }
        if m.value.num <= 0 {
            return Err("incorrect mass");
        }
        proof {
            assert(pv(r.value).0 * 1 == pv(r.value).0
                && pv(r.value).1 * 1 == pv(r.value).1) by (nonlinear_arith);
            assert(crate::rational::div_fits(pv(r.value), unit_val(Units::m)));
            assert(pv(m.value).0 * 1 == pv(m.value).0
                && pv(m.value).1 * 1 == pv(m.value).1) by (nonlinear_arith);
            assert(crate::rational::div_fits(pv(m.value), unit_val(Units::kg)));
        }
        let radius = match r.value_in(Units::m) {
            Ok(v) => v,
            Err(_) => {
                proof {
                    assert(false);
                }
                return Err("incorrect radius");
            },
        };
        let mass = match m.value_in(Units::kg) {
            Ok(v) => v,
            Err(_) => {
                proof {
                    assert(false);
                }
                return Err("incorrect mass");
            },
        };
        proof {
            assert(radius.num >= 0) by (nonlinear_arith)
                requires
                    radius.num * (r.value.den * 1) == (r.value.num * 1) * radius.den,
                    r.value.num >= 0,
                    r.value.den > 0,
                    radius.den > 0,
            ;
            assert(mass.num > 0) by (nonlinear_arith)
                requires
                    mass.num * (m.value.den * 1) == (m.value.num * 1) * mass.den,
                    m.value.num > 0,
                    m.value.den > 0,
                    mass.den > 0,
            ;
            assert(peq(pv(radius), pv(r.value))) by (nonlinear_arith)
                requires
                    radius.num * (r.value.den * 1) == (r.value.num * 1) * radius.den,
                    peq(pv(radius), pv(r.value)) == (radius.num * r.value.den
                        == r.value.num * radius.den),
            ;
            assert(peq(pv(mass), pv(m.value))) by (nonlinear_arith)
                requires
                    mass.num * (m.value.den * 1) == (m.value.num * 1) * mass.den,
                    peq(pv(mass), pv(m.value)) == (mass.num * m.value.den
                        == m.value.num * mass.den),
            ;
        }
        Ok(Plummer {
            plummer_radius: radius,
            n,
            m0: mass,
            g: Units::G.convert().value,
        })
    }

    /// Assemble a particle set from raw sampled values in base units:
    /// particle `i` sits at `positions[i]` meters with velocity
    /// `velocities[i]` meters per second and mass `masses[i]` kilograms.
    /// Fails when the three arrays disagree in length, on a negative
    /// mass, and on `i128` overflow.
    pub fn generate_particles(
        positions: Vec<Vector3>,
        velocities: Vec<Vector3>,
        masses: Vec<Rat>,
    ) -> (r: Result<ParticleSet, &'static str>)
        requires
            forall|i: int| 0 <= i < positions@.len() ==> v3_wf(#[trigger] positions@[i]),
            forall|i: int| 0 <= i < velocities@.len() ==> v3_wf(#[trigger] velocities@[i]),
            forall|i: int| 0 <= i < masses@.len() ==> rat_wf(#[trigger] masses@[i]),
        ensures
            positions@.len() != velocities@.len() || positions@.len() != masses@.len()
                ==> r is Err
                && r->Err_0@ == "generation of positions, velocities or masses went wrong"@,
            r is Ok ==> ps_wf(r->Ok_0) && r->Ok_0.particles@.len() == positions@.len(),
            r is Ok ==> forall|i: int| 0 <= i < positions@.len() ==> {
                &&& peq(pv((#[trigger] r->Ok_0.particles@[i]).position.value.x),
                    pv(positions@[i].x))
                &&& peq(pv(r->Ok_0.particles@[i].position.value.y), pv(positions@[i].y))
                &&& peq(pv(r->Ok_0.particles@[i].position.value.z), pv(positions@[i].z))
                &&& peq(pv(r->Ok_0.particles@[i].velocity.value.x), pv(velocities@[i].x))
                &&& peq(pv(r->Ok_0.particles@[i].velocity.value.y), pv(velocities@[i].y))
                &&& peq(pv(r->Ok_0.particles@[i].velocity.value.z), pv(velocities@[i].z))
                &&& peq(pv(r->Ok_0.particles@[i].mass.value), pv(masses@[i]))
            },
            positions@.len() == velocities@.len() && positions@.len() == masses@.len()
                && (forall|i: int| 0 <= i < masses@.len()
                    ==> (#[trigger] masses@[i]).num >= 0) ==> r is Ok,
    {
        if positions.len() != velocities.len() || positions.len() != masses.len() {
            return Err("generation of positions, velocities or masses went wrong");
        }
        let n = positions.len();
        let mut output = match ParticleSet::new() {
            Ok(ps) => ps,
            Err(e) => { return Err(e); },
        };
        let mut i: usize = 0;
        while i < n
            invariant
                n == positions@.len(),
                n == velocities@.len(),
                n == masses@.len(),
                forall|q: int| 0 <= q < n ==> v3_wf(#[trigger] positions@[q]),
                forall|q: int| 0 <= q < n ==> v3_wf(#[trigger] velocities@[q]),
                forall|q: int| 0 <= q < n ==> rat_wf(#[trigger] masses@[q]),
                i <= n,
                output.particles@.len() == i,
                ps_wf(output),
                forall|q: int| 0 <= q < i ==> {
                    &&& peq(pv((#[trigger] output.particles@[q]).position.value.x),
                        pv(positions@[q].x))
                    &&& peq(pv(output.particles@[q].position.value.y), pv(positions@[q].y))
                    &&& peq(pv(output.particles@[q].position.value.z), pv(positions@[q].z))
                    &&& peq(pv(output.particles@[q].velocity.value.x), pv(velocities@[q].x))
                    &&& peq(pv(output.particles@[q].velocity.value.y), pv(velocities@[q].y))
                    &&& peq(pv(output.particles@[q].velocity.value.z), pv(velocities@[q].z))
                    &&& peq(pv(output.particles@[q].mass.value), pv(masses@[q]))
                },
            decreases n - i,
        {
            let posq = match Units::m.times_vec(positions[i]) {
                Ok(v) => v,
                Err(_) => {
                    proof {
                        assert(false);
                    }
                    return Err("generation of positions, velocities or masses went wrong");
                },
            };
            let velq = match Units::ms.times_vec(velocities[i]) {
                Ok(v) => v,
                Err(_) => {
                    proof {
                        assert(false);
                    }
                    return Err("generation of positions, velocities or masses went wrong");
                },
            };
            let massq = match Units::kg.times(masses[i]) {
                Ok(v) => v,
                Err(_) => {
                    proof {
                        assert(false);
                    }
                    return Err("generation of positions, velocities or masses went wrong");
                },
            };
            let p = match Particle::new(posq, velq, massq) {
                Ok(p) => p,
                Err(e) => {
                    proof {
                        if forall|w: int| 0 <= w < n ==> (#[trigger] masses@[w]).num >= 0 {
                            assert(masses@[i as int].num >= 0);
                            assert(massq.value.num >= 0) by (nonlinear_arith)
                                requires
                                    massq.value.num * (masses@[i as int].den * 1)
                                        == (masses@[i as int].num * 1) * massq.value.den,
                                    masses@[i as int].num >= 0,
                                    masses@[i as int].den > 0,
                                    massq.value.den > 0,
                            ;
                            assert(false);
                        }
                    }
                    return Err(e);
                },
            };
            output.add_particle(p);
            i = i + 1;
        }
        Ok(output)
    }
}

} // verus!
