use rust_tracer::scalar::Scalar;
use rust_tracer::vec3::Vec3;

fn sc(v: i64) -> Scalar {
    Scalar::from_int(v)
}

fn sr(n: i64, d: i64) -> Scalar {
    Scalar::from_int(n).div(Scalar::from_int(d))
}

#[test]
fn negate() {
    let a = Vec3::new(sc(1), sc(-2), sr(7, 2));

    assert_eq!(a.neg(), Vec3::new(sc(-1), sc(2), sr(-7, 2)));
}

#[test]
fn add() {
    let a = Vec3::new(sc(1), sc(2), sc(3));
    let b = Vec3::new(sc(1), sc(-3), sc(4));

    assert_eq!(a.add(b), Vec3::new(sc(2), sc(-1), sc(7)));
    assert_eq!(a.add(b), b.add(a));
}

#[test]
fn subtract() {
    let a = Vec3::new(sc(1), sc(2), sc(3));
    let b = Vec3::new(sc(1), sc(-3), sc(4));

    assert_eq!(a.sub(b), Vec3::new(sc(0), sc(5), sc(-1)));
    assert_eq!(b.sub(a), Vec3::new(sc(0), sc(-5), sc(1)));
}

#[test]
fn multiply() {
    let a = Vec3::new(sc(1), sc(2), sc(3));
    let b = Vec3::new(sc(1), sc(-3), sc(4));

    assert_eq!(a.mul(sr(7, 2)), Vec3::new(sr(7, 2), sc(7), sr(21, 2)));
    assert_eq!(a.mul_vec(b), Vec3::new(sc(1), sc(-6), sc(12)));
}

#[test]
fn divide() {
    let a = Vec3::new(sc(1), sc(2), sc(3));

    assert_eq!(a.div(sc(2)), Vec3::new(sr(1, 2), sc(1), sr(3, 2)));
}

#[test]
fn length_squared() {
    let a = Vec3::new(sc(1), sc(2), sc(3));

    assert_eq!(a.length_squared(), sc(14));
}

#[test]
fn magnitude() {
    let a = Vec3::new(sc(1), sc(2), sc(3));

    assert_eq!(a.magnitude(), sc(14).sqrt());
}

#[test]
fn normalize() {
    let a = Vec3::new(sc(1), sc(2), sc(3));
    let r14 = sc(14).sqrt();

    assert_eq!(a.normalize(), Vec3::new(sc(1).div(r14), sc(2).div(r14), sc(3).div(r14)));
}

#[test]
fn dot() {
    let a = Vec3::new(sc(1), sc(2), sc(3));
    let b = Vec3::new(sc(2), sc(3), sc(4));

    assert_eq!(Vec3::dot(a, b), sc(20));
}

#[test]
fn cross() {
    let a = Vec3::new(sc(1), sc(2), sc(3));
    let b = Vec3::new(sc(2), sc(3), sc(4));

    assert_eq!(Vec3::cross(a, b), Vec3::new(sc(-1), sc(2), sc(-1)));
    assert_eq!(Vec3::cross(b, a), Vec3::new(sc(1), sc(-2), sc(1)));
}

#[test]
fn vector_add_associative() {
    let a = Vec3::new(sc(1), sc(-2), sc(3));
    let b = Vec3::new(sc(4), sc(5), sc(-6));
    let c = Vec3::new(sc(-7), sc(8), sc(9));

    assert_eq!(a.add(b).add(c), a.add(b.add(c)));
}

#[test]
fn dot_symmetric() {
    let a = Vec3::new(sr(1, 2), sc(-2), sr(13, 4));
    let b = Vec3::new(sc(3), sr(5, 2), sc(-1));

    assert_eq!(a.dot(b), b.dot(a));
}

#[test]
fn cross_antisymmetric() {
    let a = Vec3::new(sr(1, 2), sc(-2), sr(13, 4));
    let b = Vec3::new(sc(3), sr(5, 2), sc(-1));

    assert_eq!(a.cross(b), b.cross(a).neg());
}

#[test]
fn length_squared_is_dot() {
    let a = Vec3::new(sr(3, 2), sc(-2), sr(7, 4));

    assert_eq!(a.length_squared(), a.dot(a));
}

#[test]
fn normalize_near_unit() {
    let a = Vec3::new(sc(1), sc(2), sc(3));
    let n = a.normalize();
    let ls = n.length_squared();

    assert!((ls.raw - 65536).abs() <= 4);
}

#[test]
fn normalize_axis_exact() {
    let v = Vec3::new(sc(0), sc(0), sc(-5));
    let n = v.normalize();

    assert_eq!(n, Vec3::new(sc(0), sc(0), sc(-1)));
    assert_eq!(n.magnitude(), sc(1));
}

#[test]
fn scalar_sqrt_values() {
    assert_eq!(sc(9).sqrt(), sc(3));
    assert_eq!(sr(1, 4).sqrt(), sr(1, 2));
    assert_eq!(sc(2).sqrt().raw, 92681);
    assert_eq!(sc(0).sqrt(), sc(0));
}

#[test]
fn random_in_range() {
    let min = sc(5);
    let max = sc(6);
    for _ in 0..100 {
        let v = Vec3::random_in(min, max);
        assert!(min.raw <= v.x.raw && v.x.raw < max.raw);
        assert!(min.raw <= v.y.raw && v.y.raw < max.raw);
        assert!(min.raw <= v.z.raw && v.z.raw < max.raw);
    }
    for _ in 0..100 {
        let v = Vec3::random();
        assert!(0 <= v.x.raw && v.x.raw < 65536);
        assert!(0 <= v.y.raw && v.y.raw < 65536);
        assert!(0 <= v.z.raw && v.z.raw < 65536);
    }
}

#[test]
fn random_normalized_bounded() {
    for _ in 0..100 {
        let v = Vec3::random_normalized();
        assert!(v.x.raw.abs() <= 2 * 65536);
        assert!(v.y.raw.abs() <= 2 * 65536);
        assert!(v.z.raw.abs() <= 2 * 65536);
    }
}

#[test]
fn random_disk_flat() {
    for _ in 0..100 {
        let v = Vec3::random_in_unit_disk();
        assert_eq!(v.z.raw, 0);
        assert!(v.length_squared().raw < 65536);
    }
}
