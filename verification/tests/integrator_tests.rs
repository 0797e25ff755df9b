use xbody_model::integrators::SimpleNBody;
use xbody_model::particles::{Particle, ParticleSet};
use xbody_model::quantity::{ScalarQuantity, Units, SI};
use xbody_model::rational::Rat;
use xbody_model::vector::Vector3;

fn rat(n: i128, d: i128) -> Rat {
    Rat::new(n, d).unwrap()
}

fn as_f64(r: Rat) -> f64 {
    r.num as f64 / r.den as f64
}

fn body(pos: (i128, i128, i128), vel: (i128, i128, i128), mass: Rat) -> Particle {
    let p = Vector3::new(
        Rat::from_int(pos.0 as i64),
        Rat::from_int(pos.1 as i64),
        Rat::from_int(pos.2 as i64),
    );
    let v = Vector3::new(
        Rat::from_int(vel.0 as i64),
        Rat::from_int(vel.1 as i64),
        Rat::from_int(vel.2 as i64),
    );
    Particle::new(
        Units::m.times_vec(p).unwrap(),
        Units::ms.times_vec(v).unwrap(),
        Units::kg.times(mass).unwrap(),
    )
    .unwrap()
}

fn seconds(n: i128, d: i128) -> ScalarQuantity {
    Units::s.times(rat(n, d)).unwrap()
}

#[test]
fn integrator_default_timestep_is_one_second() {
    let ps = ParticleSet::new().unwrap();
    let nb = SimpleNBody::new(&ps).unwrap();
    let dt = nb.get_timestep();
    assert_eq!(dt.units, SI::new(0, 1, 0));
    assert_eq!(dt.value, Rat::from_int(1));
}

#[test]
fn set_timestep_validates_units() {
    let ps = ParticleSet::new().unwrap();
    let mut nb = SimpleNBody::new(&ps).unwrap();
    assert_eq!(
        nb.set_timestep(Units::kg.times(Rat::from_int(1)).unwrap()).unwrap_err(),
        "dt has incompatible units"
    );
    // any time-dimensioned value is accepted, zero included
    assert!(nb.set_timestep(seconds(0, 1)).is_ok());
    assert_eq!(nb.get_timestep().value, Rat::zero());
    assert!(nb.set_timestep(seconds(1, 2)).is_ok());
    assert_eq!(nb.get_timestep().value, rat(1, 2));
}

#[test]
fn evolve_refuses_nonpositive_timestep() {
    let ps = ParticleSet::new().unwrap();
    let mut nb = SimpleNBody::new(&ps).unwrap();
    nb.set_timestep(seconds(0, 1)).unwrap();
    assert_eq!(nb.evolve(&seconds(1, 1)).unwrap_err(), "timestep must be positive");
    nb.set_timestep(seconds(-2, 1)).unwrap();
    assert_eq!(nb.evolve(&seconds(1, 1)).unwrap_err(), "timestep must be positive");
}

#[test]
fn evolve_rejects_wrong_units() {
    let ps = ParticleSet::new().unwrap();
    let mut nb = SimpleNBody::new(&ps).unwrap();
    assert_eq!(
        nb.evolve(&Units::m.times(Rat::from_int(1)).unwrap()).unwrap_err(),
        "time has wrong units"
    );
}

#[test]
fn state_round_trip() {
    let mut ps = ParticleSet::new().unwrap();
    ps.add_particle(body((1, 2, 3), (4, 5, 6), Rat::from_int(7)));
    ps.add_particle(body((-1, 0, 1), (0, -2, 0), rat(9, 4)));
    let nb = SimpleNBody::new(&ps).unwrap();
    let state = nb.get_state().unwrap();
    assert_eq!(state.particles.len(), 2);
    for i in 0..2 {
        assert_eq!(state.particles[i], ps.particles[i]);
    }
}

#[test]
fn evolve_lands_exactly_on_target_time() {
    // a target that is not an integer multiple of the step
    let mut ps = ParticleSet::new().unwrap();
    ps.add_particle(body((0, 0, 0), (0, 0, 0), Rat::from_int(1)));
    let mut nb = SimpleNBody::new(&ps).unwrap();
    nb.set_timestep(seconds(3, 1)).unwrap();
    nb.evolve(&seconds(10, 1)).unwrap();
    assert_eq!(nb.model_time, Rat::from_int(10));
    // evolving again to a fractional time still lands exactly
    nb.evolve(&seconds(21, 2)).unwrap();
    assert_eq!(nb.model_time, rat(21, 2));
    // and a backward target is reached exactly with one negative step
    nb.evolve(&seconds(8, 1)).unwrap();
    assert_eq!(nb.model_time, Rat::from_int(8));
}

#[test]
fn two_body_single_step_displacement() {
    // equal masses m with G * m == 6 at (0,0,0) and (2,0,0), at rest;
    // after one step of 1 s each displacement along x is exactly
    // G * m / d^2 * dt^2 = 6 / 4 = 3/2, and the other components stay 0
    let m = rat(300000000000000, 3337);
    let mut ps = ParticleSet::new().unwrap();
    ps.add_particle(body((0, 0, 0), (0, 0, 0), m));
    ps.add_particle(body((2, 0, 0), (0, 0, 0), m));
    let mut nb = SimpleNBody::new(&ps).unwrap();
    nb.set_timestep(seconds(1, 1)).unwrap();
    nb.evolve(&seconds(1, 1)).unwrap();
    let state = nb.get_state().unwrap();
    let p0 = state.particles[0].get_position().value;
    let p1 = state.particles[1].get_position().value;
    assert!(p0.x.eq_val(rat(3, 2)).unwrap());
    assert!(p1.x.eq_val(rat(1, 2)).unwrap());
    assert_eq!(p0.y.num, 0);
    assert_eq!(p0.z.num, 0);
    assert_eq!(p1.y.num, 0);
    assert_eq!(p1.z.num, 0);
    let v0 = state.particles[0].get_velocity().value;
    assert!(v0.x.eq_val(rat(3, 2)).unwrap());
}

#[test]
fn bound_orbit_energy_drift_stays_small() {
    // two equal masses with G * m == 36 on a circular orbit of
    // separation 2 m and speed 3 m/s; after 1000 steps of 1 ms the total
    // energy drifts by well under one percent (first-order Euler drift)
    let m = rat(1800000000000000, 3337);
    let mut ps = ParticleSet::new().unwrap();
    ps.add_particle(body((0, 0, 0), (0, -3, 0), m));
    ps.add_particle(body((2, 0, 0), (0, 3, 0), m));
    let energy = |set: &ParticleSet| -> f64 {
        let ke = set.get_kinetic_energy().unwrap().value;
        let pe = set.get_potential_energy().unwrap().value;
        as_f64(ke) + as_f64(pe)
    };
    let e0 = energy(&ps);
    let mut nb = SimpleNBody::new(&ps).unwrap();
    nb.set_timestep(seconds(1, 1000)).unwrap();
    nb.evolve(&seconds(1, 1)).unwrap();
    let state = nb.get_state().unwrap();
    let e1 = energy(&state);
    assert!(e0 < 0.0);
    let drift = ((e1 - e0) / e0).abs();
    assert!(drift < 0.01, "energy drift {} exceeds one percent", drift);
}

#[test]
fn evolve_rejects_coincident_particles() {
    let mut ps = ParticleSet::new().unwrap();
    ps.add_particle(body((0, 0, 0), (0, 0, 0), Rat::from_int(1)));
    ps.add_particle(body((0, 0, 0), (0, 0, 0), Rat::from_int(1)));
    let mut nb = SimpleNBody::new(&ps).unwrap();
    assert_eq!(nb.evolve(&seconds(1, 1)).unwrap_err(), "division by zero");
}
