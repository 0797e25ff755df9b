use xbody_model::generators::Plummer;
use xbody_model::profiler::Profiler;
use xbody_model::quantity::Units;
use xbody_model::rational::Rat;
use xbody_model::vector::Vector3;

fn rat(n: i128, d: i128) -> Rat {
    Rat::new(n, d).unwrap()
}

#[test]
fn plummer_new_valid() {
    let r = Units::kpc.times(rat(1, 100)).unwrap();
    let m = Units::MSun.times(Rat::from_int(10000000)).unwrap();
    let p = Plummer::new(r, 100, m).unwrap();
    assert_eq!(p.n, 100);
    assert!(p.plummer_radius.eq_val(rat(308600000000000000, 1)).unwrap());
}

#[test]
fn plummer_new_incorrect_radius() {
    let r = Units::s.times(Rat::from_int(1)).unwrap();
    let m = Units::kg.times(Rat::from_int(1)).unwrap();
    assert_eq!(Plummer::new(r, 10, m).unwrap_err(), "incorrect radius");
    let r2 = Units::m.times(Rat::from_int(-1)).unwrap();
    let m2 = Units::kg.times(Rat::from_int(1)).unwrap();
    assert_eq!(Plummer::new(r2, 10, m2).unwrap_err(), "incorrect radius");
}

#[test]
fn plummer_new_incorrect_number() {
    let r = Units::m.times(Rat::from_int(1)).unwrap();
    let m = Units::kg.times(Rat::from_int(1)).unwrap();
    assert_eq!(Plummer::new(r, 0, m).unwrap_err(), "incorrect number of particles");
}

#[test]
fn plummer_new_incorrect_mass() {
    let r = Units::m.times(Rat::from_int(1)).unwrap();
    let m = Units::kg.times(Rat::from_int(0)).unwrap();
    assert_eq!(Plummer::new(r, 10, m).unwrap_err(), "incorrect mass");
    let r2 = Units::m.times(Rat::from_int(1)).unwrap();
    let m2 = Units::s.times(Rat::from_int(1)).unwrap();
    assert_eq!(Plummer::new(r2, 10, m2).unwrap_err(), "incorrect mass");
}

#[test]
fn generate_particles_checks_lengths() {
    let positions = vec![Vector3::null_vector()];
    let velocities: Vec<Vector3> = Vec::new();
    let masses = vec![Rat::from_int(1)];
    assert_eq!(
        Plummer::generate_particles(positions, velocities, masses).unwrap_err(),
        "generation of positions, velocities or masses went wrong"
    );
}

#[test]
fn generate_particles_builds_the_set() {
    let positions = vec![
        Vector3::new(Rat::from_int(1), Rat::from_int(2), Rat::from_int(3)),
        Vector3::new(Rat::from_int(4), Rat::from_int(5), Rat::from_int(6)),
    ];
    let velocities = vec![Vector3::null_vector(), Vector3::null_vector()];
    let masses = vec![rat(1, 2), rat(3, 2)];
    let ps = Plummer::generate_particles(positions, velocities, masses).unwrap();
    assert_eq!(ps.particles.len(), 2);
    assert!(ps.particles[0].get_mass().value.eq_val(rat(1, 2)).unwrap());
    assert!(ps.particles[1].get_position().value.x.eq_val(Rat::from_int(4)).unwrap());
}

#[test]
fn generate_particles_rejects_negative_mass() {
    let positions = vec![Vector3::null_vector()];
    let velocities = vec![Vector3::null_vector()];
    let masses = vec![Rat::from_int(-1)];
    assert_eq!(
        Plummer::generate_particles(positions, velocities, masses).unwrap_err(),
        "incorrect mass"
    );
}

#[test]
fn profiler_keeps_its_label() {
    let p = Profiler::new(Some("setup"));
    assert_eq!(p.name, "setup");
    let q = Profiler::new(None);
    assert_eq!(q.name, "");
}
