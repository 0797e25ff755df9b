use xbody_model::particles::{Particle, ParticleSet};
use xbody_model::quantity::{ScalarQuantity, Units, VectorQuantity, SI};
use xbody_model::rational::Rat;
use xbody_model::vector::Vector3;

fn rat(n: i128, d: i128) -> Rat {
    Rat::new(n, d).unwrap()
}

fn vector_of(x: i128, y: i128, z: i128, u: Units) -> VectorQuantity {
    let v = Vector3::new(
        Rat::from_int(x as i64),
        Rat::from_int(y as i64),
        Rat::from_int(z as i64),
    );
    u.times_vec(v).unwrap()
}

fn scalar_of(n: i128, d: i128, u: Units) -> ScalarQuantity {
    u.times(rat(n, d)).unwrap()
}

fn particle(px: i128, vy: i128, mass: i128) -> Particle {
    Particle::new(
        vector_of(px, 0, 0, Units::m),
        vector_of(0, vy, 0, Units::ms),
        scalar_of(mass, 1, Units::kg),
    )
    .unwrap()
}

#[test]
fn particle_new_valid() {
    let p = Particle::new(
        vector_of(1, 0, 0, Units::m),
        vector_of(0, 0, 0, Units::ms),
        scalar_of(5, 1, Units::kg),
    )
    .unwrap();
    assert_eq!(p.get_position(), vector_of(1, 0, 0, Units::m));
    assert_eq!(p.get_velocity(), vector_of(0, 0, 0, Units::ms));
    assert_eq!(p.get_mass(), scalar_of(5, 1, Units::kg));
}

#[test]
fn particle_new_position_in_seconds() {
    let bad_position = VectorQuantity {
        value: Vector3::new(Rat::from_int(1), Rat::zero(), Rat::zero()),
        units: SI::new(0, 1, 0),
    };
    let r = Particle::new(
        bad_position,
        vector_of(0, 0, 0, Units::ms),
        scalar_of(5, 1, Units::kg),
    );
    assert_eq!(r.unwrap_err(), "incorrect position");
}

#[test]
fn particle_new_negative_mass() {
    let r = Particle::new(
        vector_of(1, 0, 0, Units::m),
        vector_of(0, 0, 0, Units::ms),
        scalar_of(-1, 1, Units::kg),
    );
    assert_eq!(r.unwrap_err(), "incorrect mass");
}

#[test]
fn particle_new_wrong_velocity() {
    let r = Particle::new(
        vector_of(1, 0, 0, Units::m),
        vector_of(0, 0, 0, Units::m),
        scalar_of(5, 1, Units::kg),
    );
    assert_eq!(r.unwrap_err(), "incorrect velocity");
}

#[test]
fn particle_setters_validate() {
    let mut p = Particle::empty();
    assert!(p.set_position(vector_of(7, 8, 9, Units::m)).is_ok());
    assert_eq!(p.set_position(vector_of(7, 8, 9, Units::ms)).unwrap_err(), "incorrect position");
    assert_eq!(p.get_position(), vector_of(7, 8, 9, Units::m));
    assert!(p.set_velocity(vector_of(1, 2, 3, Units::ms)).is_ok());
    assert_eq!(p.set_velocity(vector_of(1, 2, 3, Units::m)).unwrap_err(), "incorrect velocity");
    assert!(p.set_mass(scalar_of(0, 1, Units::kg)).is_ok());
    assert_eq!(p.set_mass(scalar_of(1, 1, Units::s)).unwrap_err(), "incorrect mass");
    assert_eq!(p.set_mass(scalar_of(-3, 1, Units::kg)).unwrap_err(), "incorrect mass");
    assert_eq!(p.get_mass(), scalar_of(0, 1, Units::kg));
}

#[test]
fn particle_equality_is_by_attributes() {
    let a = particle(1, 2, 3);
    let b = particle(1, 2, 3);
    let c = particle(1, 2, 4);
    assert_eq!(a, b);
    assert_ne!(a, c);
}

#[test]
fn particle_set_preserves_order() {
    let mut ps = ParticleSet::new().unwrap();
    ps.add_particle(particle(1, 0, 1));
    ps.add_particle(particle(2, 0, 1));
    let mut other = ParticleSet::new().unwrap();
    other.add_particle(particle(3, 0, 1));
    other.add_particle(particle(4, 0, 1));
    ps.add_particles(other);
    assert_eq!(ps.particles.len(), 4);
    for (i, p) in ps.particles.iter().enumerate() {
        assert_eq!(p.get_position(), vector_of(i as i128 + 1, 0, 0, Units::m));
    }
}

#[test]
fn kinetic_energy_exact() {
    // two particles of mass 2 kg moving at (3, 4, 0) m/s:
    // twice (1/2 * 2 * 25) = 50 J
    let p = Particle::new(
        vector_of(0, 0, 0, Units::m),
        vector_of(3, 4, 0, Units::ms),
        scalar_of(2, 1, Units::kg),
    )
    .unwrap();
    let mut ps = ParticleSet::new().unwrap();
    ps.add_particle(p);
    ps.add_particle(p);
    let ke = ps.get_kinetic_energy().unwrap();
    assert_eq!(ke.units, SI::new(2, -2, 1));
    assert!(ke.value.eq_val(Rat::from_int(50)).unwrap());
}

#[test]
fn kinetic_energy_zero_velocities() {
    let mut ps = ParticleSet::new().unwrap();
    ps.add_particle(particle(1, 0, 5));
    ps.add_particle(particle(9, 0, 7));
    let ke = ps.get_kinetic_energy().unwrap();
    assert_eq!(ke.value.num, 0);
}

#[test]
fn potential_energy_single_particle_is_zero() {
    let mut ps = ParticleSet::new().unwrap();
    ps.add_particle(particle(1, 2, 3));
    let pe = ps.get_potential_energy().unwrap();
    assert_eq!(pe.value.num, 0);
    assert_eq!(pe.units, SI::new(2, -2, 1));
}

#[test]
fn potential_energy_empty_set_is_zero() {
    let ps = ParticleSet::new().unwrap();
    assert_eq!(ps.get_potential_energy().unwrap().value.num, 0);
    assert_eq!(ps.get_kinetic_energy().unwrap().value.num, 0);
}

#[test]
fn potential_energy_exact_pair() {
    // masses 10 kg and 20 kg at distance 3 m; each ordered pair
    // contributes -G * 10 * 20 / 3 = -4.449333...e-9 J, rounded down onto
    // the 1e-9 grid to -4e-9 J, so the total is exactly -8e-9 J
    let a = particle(0, 0, 10);
    let b = particle(3, 0, 20);
    let mut ps = ParticleSet::new().unwrap();
    ps.add_particle(a);
    ps.add_particle(b);
    let pe = ps.get_potential_energy().unwrap();
    assert!(pe.value.eq_val(rat(-8, 1000000000)).unwrap());
}

#[test]
fn potential_energy_heavy_pair() {
    // masses 1e6 kg at distance 1 m: each ordered pair contributes
    // -G * 1e12 = -66.74 J exactly (a multiple of the 1e-9 grid), so the
    // total is -133.48 J
    let a = particle(0, 0, 1000000);
    let b = particle(1, 0, 1000000);
    let mut ps = ParticleSet::new().unwrap();
    ps.add_particle(a);
    ps.add_particle(b);
    let pe = ps.get_potential_energy().unwrap();
    assert!(pe.value.eq_val(rat(-3337, 25)).unwrap());
}

#[test]
fn energies_of_a_larger_set() {
    // five spread-out heavy integer particles: both aggregate queries
    // succeed and the kinetic energy is exact
    let mut ps = ParticleSet::new().unwrap();
    for q in 0..5 {
        ps.add_particle(particle(10 * (q as i128 + 1), q as i128, 1000000));
    }
    let ke = ps.get_kinetic_energy().unwrap();
    // sum of 1/2 * 1e6 * q^2 over q = 0..4 is 1.5e7
    assert!(ke.value.eq_val(Rat::from_int(15000000)).unwrap());
    let pe = ps.get_potential_energy().unwrap();
    assert!(pe.value.num < 0);
}
