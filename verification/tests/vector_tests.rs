use xbody_model::rational::{Rat, SQRT_SCALE};
use xbody_model::vector::Vector3;

fn rat(n: i128, d: i128) -> Rat {
    Rat::new(n, d).unwrap()
}

fn vec3(x: i128, y: i128, z: i128) -> Vector3 {
    Vector3::new(Rat::from_int(x as i64), Rat::from_int(y as i64), Rat::from_int(z as i64))
}

#[test]
fn vector3_add_vector3() {
    let a = vec3(1, 2, 3);
    let b = vec3(10, 20, 30);
    let c = a.add(b).unwrap();
    assert_eq!(c, vec3(11, 22, 33));
}

#[test]
fn vector3_sub_vector3() {
    let a = vec3(1, 2, 3);
    let b = vec3(10, 20, 30);
    let c = b.sub(a).unwrap();
    assert_eq!(c, vec3(9, 18, 27));
}

#[test]
fn vector3_scale() {
    let a = vec3(1, 2, 3);
    let c = a.scale(rat(1, 2)).unwrap();
    assert_eq!(c, Vector3::new(rat(1, 2), Rat::from_int(1), rat(3, 2)));
}

#[test]
fn vector3_scale_div() {
    let a = vec3(3, 6, 9);
    let c = a.scale_div(Rat::from_int(3)).unwrap();
    assert_eq!(c, vec3(1, 2, 3));
}

#[test]
fn vector3_scale_div_by_zero() {
    let a = vec3(3, 6, 9);
    assert!(a.scale_div(Rat::zero()).is_none());
}

#[test]
fn vector3_dot() {
    let a = vec3(1, 2, 3);
    let b = vec3(4, -5, 6);
    assert_eq!(a.dot(&b).unwrap(), Rat::from_int(12));
}

#[test]
fn vector3_mag_exact() {
    // |(3, 4, 0)| is exactly 5; the floor square root keeps its raw
    // denominator SQRT_SCALE, so compare by value
    let a = vec3(3, 4, 0);
    let m = a.mag().unwrap();
    assert!(m.eq_val(Rat::from_int(5)).unwrap());
    assert_eq!(m.den, SQRT_SCALE);
}

#[test]
fn vector3_mag_irrational_bounds() {
    // |(1, 1, 0)|^2 == 2: the result is sqrt(2) rounded down on the
    // 1/SQRT_SCALE grid
    let a = vec3(1, 1, 0);
    let m = a.mag().unwrap();
    assert_eq!(m.num, 1414213);
    assert_eq!(m.den, 1000000);
}

#[test]
fn vector3_unit() {
    let a = vec3(3, 4, 0);
    let u = a.unit().unwrap();
    assert_eq!(u, Vector3::new(rat(3, 5), rat(4, 5), Rat::zero()));
}

#[test]
fn vector3_unit_of_zero_vector() {
    assert!(Vector3::null_vector().unit().is_none());
}

#[test]
fn vector3_null_vector() {
    let z = Vector3::null_vector();
    assert_eq!(z, vec3(0, 0, 0));
}

#[test]
fn vector3_neg() {
    let a = vec3(1, -2, 3);
    assert_eq!(a.neg(), vec3(-1, 2, -3));
}

#[test]
fn rational_canonical_form() {
    assert_eq!(Rat::new(2, 4).unwrap(), rat(1, 2));
    assert_eq!(Rat::new(3, -6).unwrap(), rat(-1, 2));
    assert!(Rat::new(1, 0).is_none());
}

#[test]
fn rational_arithmetic() {
    let a = rat(1, 6);
    let b = rat(1, 10);
    assert_eq!(a.add(b).unwrap(), rat(4, 15));
    assert_eq!(a.sub(b).unwrap(), rat(1, 15));
    assert_eq!(a.mul(b).unwrap(), rat(1, 60));
    assert_eq!(a.div(b).unwrap(), rat(5, 3));
    assert!(a.div(Rat::zero()).is_none());
    assert!(b.le(a).unwrap());
    assert!(!a.le(b).unwrap());
}

#[test]
fn rational_pow() {
    let a = rat(2, 3);
    assert_eq!(a.pow(3).unwrap(), rat(8, 27));
    assert_eq!(a.pow(-2).unwrap(), rat(9, 4));
    assert_eq!(a.pow(0).unwrap(), Rat::from_int(1));
    assert!(Rat::zero().pow(-1).is_none());
}

#[test]
fn rational_sqrt_floor() {
    let two = Rat::from_int(2);
    let r = two.sqrt_floor().unwrap();
    assert_eq!(r.num, 1414213);
    assert_eq!(r.den, 1000000);
    let nine = Rat::from_int(9);
    assert!(nine.sqrt_floor().unwrap().eq_val(Rat::from_int(3)).unwrap());
}

#[test]
fn rational_quantize_floor() {
    let a = rat(7, 3);
    assert_eq!(a.quantize_floor(3).unwrap(), rat(7, 3));
    let c = rat(1, 3);
    // floor(1/3 * 10) / 10 = 3/10
    assert_eq!(c.quantize_floor(10).unwrap(), rat(3, 10));
    let d = rat(-1, 3);
    // floor(-1/3 * 10) / 10 = -4/10, kept on the grid denominator
    let q = d.quantize_floor(10).unwrap();
    assert_eq!((q.num, q.den), (-4, 10));
    assert!(q.eq_val(rat(-2, 5)).unwrap());
}
