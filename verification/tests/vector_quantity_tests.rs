use xbody_model::quantity::{Units, VectorQuantity, SI};
use xbody_model::rational::Rat;
use xbody_model::vector::Vector3;

fn rat(n: i128, d: i128) -> Rat {
    Rat::new(n, d).unwrap()
}

fn meters(x: i128, y: i128, z: i128) -> VectorQuantity {
    let v = Vector3::new(
        Rat::from_int(x as i64),
        Rat::from_int(y as i64),
        Rat::from_int(z as i64),
    );
    Units::m.times_vec(v).unwrap()
}

#[test]
fn vector_quantity_add_compatible() {
    let a = meters(1, 2, 3);
    let b = meters(10, 20, 30);
    let c = a.add(b).unwrap();
    assert_eq!(c.value, Vector3::new(Rat::from_int(11), Rat::from_int(22), Rat::from_int(33)));
    assert_eq!(c.units, SI::new(1, 0, 0));
}

#[test]
fn vector_quantity_add_incompatible() {
    let a = meters(1, 2, 3);
    let b = VectorQuantity::from(Vector3::null_vector());
    assert_eq!(a.add(b).unwrap_err(), "trying to sum incompatible units");
}

#[test]
fn vector_quantity_sub_compatible() {
    let a = meters(10, 20, 30);
    let b = meters(1, 2, 3);
    let c = a.sub(b).unwrap();
    assert_eq!(c.value, Vector3::new(Rat::from_int(9), Rat::from_int(18), Rat::from_int(27)));
}

#[test]
fn vector_quantity_mul_quantity() {
    let a = meters(1, 2, 3);
    let k = Units::s.times(Rat::from_int(2)).unwrap();
    let c = a.mul(k).unwrap();
    assert_eq!(c.units, SI::new(1, 1, 0));
    assert_eq!(c.value.y, Rat::from_int(4));
}

#[test]
fn vector_quantity_div_quantity() {
    let a = meters(2, 4, 6);
    let k = Units::s.times(Rat::from_int(2)).unwrap();
    let c = a.div(k).unwrap();
    assert_eq!(c.units, SI::new(1, -1, 0));
    assert_eq!(c.value, Vector3::new(Rat::from_int(1), Rat::from_int(2), Rat::from_int(3)));
}

#[test]
fn vector_quantity_mag_keeps_dimension() {
    let a = meters(3, 4, 0);
    let m = a.mag().unwrap();
    assert_eq!(m.units, SI::new(1, 0, 0));
    assert!(m.value.eq_val(Rat::from_int(5)).unwrap());
}

#[test]
fn vector_quantity_value_in() {
    let a = meters(1000, 0, 2000);
    let v = a.value_in(Units::m).unwrap();
    assert!(v.x.eq_val(Rat::from_int(1000)).unwrap());
    assert_eq!(a.value_in(Units::kg).unwrap_err(), "trying to take value in incompatible units");
}

#[test]
fn vector_add_then_sub_restores() {
    // (a + b) - b == a componentwise, exactly
    let a = meters(7, -3, 11);
    let b = meters(2, 5, -4);
    let r = a.add(b).unwrap().sub(b).unwrap();
    assert_eq!(r, a);
}

#[test]
fn vector_mul_then_div_restores() {
    // (a * k) / k == a for a nonzero dimensionless k, exactly
    let a = meters(7, -3, 11);
    let k = rat(-5, 9);
    let r = a.mul_rat(k).unwrap().div_rat(k).unwrap();
    assert_eq!(r, a);
}

#[test]
fn vector_quantity_from_is_dimensionless() {
    let v = Vector3::new(Rat::from_int(1), Rat::from_int(2), Rat::from_int(3));
    let q = VectorQuantity::from(v);
    assert_eq!(q.units, SI::empty());
    assert_eq!(q.value, v);
}
