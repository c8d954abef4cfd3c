use rust_tracer::interval::Interval;
use rust_tracer::ray::Ray;
use rust_tracer::scalar::Scalar;
use rust_tracer::vec3::{Point, Vector};

fn sc(v: i64) -> Scalar {
    Scalar::from_int(v)
}

fn sr(n: i64, d: i64) -> Scalar {
    Scalar::from_int(n).div(Scalar::from_int(d))
}

#[test]
fn contains() {
    let i = Interval::new(sc(1), sc(2));

    assert!(i.contains(sc(1)));
    assert!(i.contains(sc(2)));
    assert!(i.contains(sr(10001, 10000)));
    assert!(i.contains(sr(19999, 10000)));
    assert!(!i.contains(sr(9999, 10000)));
    assert!(!i.contains(sr(20001, 10000)));
}

#[test]
fn surrounds() {
    let i = Interval::new(sc(1), sc(2));

    assert!(!i.surrounds(sc(1)));
    assert!(!i.surrounds(sc(2)));
    assert!(i.surrounds(sr(10001, 10000)));
    assert!(i.surrounds(sr(19999, 10000)));
    assert!(!i.surrounds(sr(9999, 10000)));
    assert!(!i.surrounds(sr(20001, 10000)));
}

#[test]
fn clamp() {
    let i = Interval::new(sc(1), sc(2));

    assert_eq!(i.clamp(sr(3, 2)), sr(3, 2));
    assert_eq!(i.clamp(sc(1)), sc(1));
    assert_eq!(i.clamp(sc(2)), sc(2));
    assert_eq!(i.clamp(sr(9999, 10000)), sc(1));
    assert_eq!(i.clamp(sr(20001, 10000)), sc(2));
}

#[test]
fn at() {
    let o = Point::new(sc(0), sc(-1), sr(7, 2));
    let d = Vector::new(sc(-1), sc(1), sc(0));
    let r = Ray::new(o, d, sc(0));

    assert_eq!(r.at(sc(0)), Point::new(sc(0), sc(-1), sr(7, 2)));
    assert_eq!(r.at(sr(3, 2)), Point::new(sr(-3, 2), sr(1, 2), sr(7, 2)));
    assert_eq!(r.at(sc(-1)), Point::new(sc(1), sc(-2), sr(7, 2)));
}
