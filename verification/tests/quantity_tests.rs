use xbody_model::quantity::{ScalarQuantity, Units, SI};
use xbody_model::rational::Rat;

fn rat(n: i128, d: i128) -> Rat {
    Rat::new(n, d).unwrap()
}

fn scalar(n: i128, d: i128, u: Units) -> ScalarQuantity {
    u.times(rat(n, d)).unwrap()
}

#[test]
fn create_quantity_from_unit() {
    let q = scalar(10, 1, Units::m);
    assert_eq!(q.units, SI::new(1, 0, 0));
    assert_eq!(q.value, Rat::from_int(10));
}

#[test]
fn unit_catalog_factors() {
    assert_eq!(Units::m.convert().value, rat(1, 1));
    assert_eq!(Units::pc.convert().value, rat(30860000000000000, 1));
    assert_eq!(Units::kpc.convert().value, rat(30860000000000000000, 1));
    assert_eq!(Units::s.convert().value, rat(1, 1));
    assert_eq!(Units::yr.convert().value, rat(31536000, 1));
    assert_eq!(Units::Myr.convert().value, rat(31536000000000, 1));
    assert_eq!(Units::kg.convert().value, rat(1, 1));
    assert_eq!(Units::MSun.convert().value, rat(1989000000000000000000000000000, 1));
    assert_eq!(Units::ms.convert().value, rat(1, 1));
    assert_eq!(Units::kms.convert().value, rat(1000, 1));
    assert_eq!(Units::J.convert().value, rat(1, 1));
    assert_eq!(Units::G.convert().value, rat(6674, 100000000000000));
    assert_eq!(Units::J.convert().units, SI::new(2, -2, 1));
    assert_eq!(Units::G.convert().units, SI::new(3, -2, -1));
    assert_eq!(Units::kms.convert().units, SI::new(1, -1, 0));
}

#[test]
fn sum_summable_quantities() {
    let a = scalar(10, 1, Units::m);
    let b = scalar(15, 1, Units::m);
    let c = a.add(b).unwrap();
    assert_eq!(c.value, Rat::from_int(25));
    assert_eq!(c.units, SI::new(1, 0, 0));
}

#[test]
fn sum_unsummable_quantities() {
    let a = scalar(10, 1, Units::m);
    let b = scalar(1, 1, Units::s);
    assert_eq!(a.add(b).unwrap_err(), "trying to sum incompatible units");
}

#[test]
fn sub_summable_quantities() {
    let a = scalar(10, 1, Units::s);
    let b = scalar(4, 1, Units::s);
    assert_eq!(a.sub(b).unwrap().value, Rat::from_int(6));
}

#[test]
fn sub_unsummable_quantities() {
    let a = scalar(10, 1, Units::s);
    let b = scalar(10, 1, Units::kg);
    assert_eq!(a.sub(b).unwrap_err(), "trying to sum incompatible units");
}

#[test]
fn multiply_quantity_by_number() {
    let a = scalar(10, 1, Units::m);
    let c = a.mul_rat(Rat::from_int(3)).unwrap();
    assert_eq!(c.value, Rat::from_int(30));
    assert_eq!(c.units, SI::new(1, 0, 0));
}

#[test]
fn multiply_different_quantities() {
    let a = scalar(10, 1, Units::m);
    let b = scalar(50, 1, Units::kg);
    let c = a.mul(b).unwrap();
    assert_eq!(c.value, Rat::from_int(500));
    assert_eq!(c.units, SI::new(1, 0, 1));
}

#[test]
fn divide_quantity_by_number() {
    let a = scalar(10, 1, Units::m);
    let c = a.div_rat(Rat::from_int(4)).unwrap();
    assert_eq!(c.value, rat(5, 2));
}

#[test]
fn divide_different_quantities() {
    let a = scalar(10, 1, Units::m);
    let b = scalar(5, 1, Units::s);
    let c = a.div(b).unwrap();
    assert_eq!(c.value, Rat::from_int(2));
    assert_eq!(c.units, SI::new(1, -1, 0));
}

#[test]
fn divide_by_zero_quantity() {
    let a = scalar(10, 1, Units::m);
    let b = scalar(0, 1, Units::s);
    assert_eq!(a.div(b).unwrap_err(), "division by zero");
}

#[test]
fn quantity_pow() {
    let a = scalar(10, 1, Units::m);
    let c = a.pow(2).unwrap();
    assert_eq!(c.value, Rat::from_int(100));
    assert_eq!(c.units, SI::new(2, 0, 0));
}

#[test]
fn quantity_pow_negative() {
    let a = scalar(10, 1, Units::m);
    let c = a.pow(-1).unwrap();
    assert_eq!(c.value, rat(1, 10));
    assert_eq!(c.units, SI::new(-1, 0, 0));
}

#[test]
fn value_in_unit() {
    let a = scalar(2, 1, Units::kpc);
    assert_eq!(a.value_in(Units::pc).unwrap(), Rat::from_int(2000));
    assert_eq!(a.value_in(Units::m).unwrap(), rat(61720000000000000000, 1));
}

#[test]
fn value_in_wrong_units() {
    let a = scalar(2, 1, Units::kpc);
    assert_eq!(
        a.value_in(Units::s).unwrap_err(),
        "trying to take value in incompatible units"
    );
}

#[test]
fn complex_quantities_in_complex_units() {
    // one year is exactly 31536000 seconds
    let a = scalar(1, 1, Units::yr);
    assert_eq!(a.value_in(Units::s).unwrap(), Rat::from_int(31536000));
}

#[test]
fn compare_quantities() {
    let a = scalar(3, 2, Units::kg);
    let b = scalar(2, 1, Units::kg);
    assert!(a.le(&b).unwrap());
    assert!(a.lt(&b).unwrap());
    assert!(!a.ge(&b).unwrap());
    assert!(!a.gt(&b).unwrap());
    assert!(a.le(&a).unwrap());
    assert!(!a.lt(&a).unwrap());
}

#[test]
fn compare_incompatible_quantities() {
    let a = scalar(1, 1, Units::kg);
    let b = scalar(1, 1, Units::s);
    assert_eq!(a.le(&b).unwrap_err(), "trying to compare incompatible units");
    assert_eq!(a.lt(&b).unwrap_err(), "trying to compare incompatible units");
    assert_eq!(a.ge(&b).unwrap_err(), "trying to compare incompatible units");
    assert_eq!(a.gt(&b).unwrap_err(), "trying to compare incompatible units");
}

#[test]
fn add_then_sub_restores() {
    // (a + b) - b == a, exactly, and the dimension is kept
    let a = scalar(7, 3, Units::J);
    let b = scalar(-5, 11, Units::J);
    let r = a.add(b).unwrap().sub(b).unwrap();
    assert_eq!(r, a);
}

#[test]
fn mul_then_div_restores() {
    // (a * k) / k == a for a nonzero dimensionless k, exactly
    let a = scalar(-9, 4, Units::kms);
    let k = rat(3, 7);
    let r = a.mul_rat(k).unwrap().div_rat(k).unwrap();
    assert_eq!(r, a);
}

#[test]
fn mul_then_div_by_quantity_restores() {
    // (a * q) / q == a for any nonzero scalar quantity q
    let a = scalar(10, 1, Units::m);
    let q = scalar(7, 2, Units::s);
    let r = a.mul(q).unwrap().div(q).unwrap();
    assert_eq!(r, a);
}

#[test]
fn value_in_round_trip() {
    // value_in(q, u) * u reconstructs q, value and dimension
    let q = scalar(-22, 7, Units::Myr);
    let v = q.value_in(Units::yr).unwrap();
    let r = Units::yr.times(v).unwrap();
    assert_eq!(r, q);
}

#[test]
fn incompatible_dimensions_always_fail() {
    let samples = [
        scalar(1, 1, Units::m),
        scalar(1, 1, Units::s),
        scalar(1, 1, Units::kg),
        scalar(1, 1, Units::J),
        scalar(1, 1, Units::G),
        scalar(1, 1, Units::ms),
    ];
    for (i, a) in samples.iter().enumerate() {
        for (j, b) in samples.iter().enumerate() {
            if i == j {
                assert!(a.add(*b).is_ok());
                assert!(a.sub(*b).is_ok());
                assert!(a.le(b).is_ok());
            } else {
                assert!(a.add(*b).is_err());
                assert!(a.sub(*b).is_err());
                assert!(a.le(b).is_err());
            }
        }
    }
}

#[test]
fn scalar_quantity_new_is_dimensionless_one() {
    let q = ScalarQuantity::new();
    assert_eq!(q.value, Rat::from_int(1));
    assert_eq!(q.units, SI::empty());
}

#[test]
fn si_pow_scales_exponents() {
    let d = SI::new(1, -1, 0);
    assert_eq!(d.pow(3).unwrap(), SI::new(3, -3, 0));
    assert_eq!(d.pow(-2).unwrap(), SI::new(-2, 2, 0));
}

#[test]
fn unit_pow() {
    let q = Units::m.pow(3).unwrap();
    assert_eq!(q.units, SI::new(3, 0, 0));
    assert_eq!(q.value, Rat::from_int(1));
    let q2 = Units::kms.pow(2).unwrap();
    assert_eq!(q2.units, SI::new(2, -2, 0));
    assert_eq!(q2.value, Rat::from_int(1000000));
}

#[test]
fn is_compatible_predicate() {
    let a = scalar(4, 1, Units::pc);
    let b = scalar(-1, 2, Units::m);
    let c = scalar(4, 1, Units::s);
    assert!(a.is_compatible(&b));
    assert!(!a.is_compatible(&c));
}
