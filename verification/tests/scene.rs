use rust_tracer::camera::{ray_color, Camera};
use rust_tracer::color::Color;
use rust_tracer::entity::Entity;
use rust_tracer::hit_record::HitRecord;
use rust_tracer::hittable::Hittable;
use rust_tracer::interval::Interval;
use rust_tracer::material::Material;
use rust_tracer::ray::Ray;
use rust_tracer::scalar::Scalar;
use rust_tracer::vec3::{Point, Vec3, Vector};
use rust_tracer::world::World;

fn sc(v: i64) -> Scalar {
    Scalar::from_int(v)
}

fn sr(n: i64, d: i64) -> Scalar {
    Scalar::from_int(n).div(Scalar::from_int(d))
}

fn gray() -> Color {
    Vec3::new(sr(1, 2), sr(1, 2), sr(1, 2))
}

#[test]
fn sphere_entry_exit() {
    let e = Entity::sphere(Point::new(sc(0), sc(0), sc(-3)), sc(1), Material::Lambertian(gray()));
    let r = Ray::new(Point::new(sc(0), sc(0), sc(0)), Vector::new(sc(0), sc(0), sc(-1)), sc(0));

    let entry = e.hit(&r, &Interval::new(sc(0), sc(10))).unwrap();
    assert_eq!(entry.t, sc(2));
    assert!(entry.front_face);
    assert_eq!(entry.normal, Vector::new(sc(0), sc(0), sc(1)));

    let exit = e.hit(&r, &Interval::new(sr(5, 2), sc(10))).unwrap();
    assert_eq!(exit.t, sc(4));
    assert!(!exit.front_face);
}

#[test]
fn sphere_offset_miss() {
    let e = Entity::sphere(Point::new(sc(0), sc(2), sc(-3)), sc(1), Material::Lambertian(gray()));
    let r = Ray::new(Point::new(sc(0), sc(0), sc(0)), Vector::new(sc(0), sc(0), sc(-1)), sc(0));

    assert!(e.hit(&r, &Interval::new(sc(0), sc(100))).is_none());
}

#[test]
fn sphere_tangent() {
    let e = Entity::sphere(Point::new(sc(0), sc(1), sc(-3)), sc(1), Material::Lambertian(gray()));
    let r = Ray::new(Point::new(sc(0), sc(0), sc(0)), Vector::new(sc(0), sc(0), sc(-1)), sc(0));

    let h = e.hit(&r, &Interval::new(sc(0), sc(100))).unwrap();
    assert_eq!(h.t, sc(3));
}

#[test]
fn normal_faces_ray() {
    let e = Entity::sphere(Point::new(sc(0), sc(0), sc(-3)), sc(1), Material::Lambertian(gray()));
    let dirs = [
        Vector::new(sc(0), sc(0), sc(-1)),
        Vector::new(sr(1, 4), sc(0), sc(-1)),
        Vector::new(sr(-1, 4), sr(1, 8), sc(-1)),
    ];
    for d in dirs.iter() {
        let r = Ray::new(Point::new(sc(0), sc(0), sc(0)), *d, sc(0));
        let h = e.hit(&r, &Interval::new(sc(0), sc(100))).unwrap();
        assert!(h.normal.dot(r.direction).raw <= 0);
    }
}

#[test]
fn nearest_hit_wins() {
    let near = Entity::sphere(Point::new(sc(0), sc(0), sc(-2)), sr(1, 2), Material::Lambertian(
        gray(),
    ));
    let far = Entity::sphere(
        Point::new(sc(0), sc(0), sc(-5)),
        sr(1, 2),
        Material::Metal(gray(), sc(0)),
    );
    let r = Ray::new(Point::new(sc(0), sc(0), sc(0)), Vector::new(sc(0), sc(0), sc(-1)), sc(0));

    let mut w1 = World::new();
    w1.add(near);
    w1.add(far);
    let h1 = w1.hit(&r, &Interval::new(sr(1, 1000), sc(1000))).unwrap();
    assert_eq!(h1.t, sr(3, 2));
    assert!(matches!(h1.material, Material::Lambertian(_)));

    let mut w2 = World::new();
    w2.add(far);
    w2.add(near);
    let h2 = w2.hit(&r, &Interval::new(sr(1, 1000), sc(1000))).unwrap();
    assert_eq!(h2.t, sr(3, 2));
    assert!(matches!(h2.material, Material::Lambertian(_)));
}

#[test]
fn moving_sphere_interpolates() {
    let e = Entity::moving_sphere(
        Point::new(sc(0), sc(0), sc(-3)),
        Point::new(sc(0), sc(2), sc(-3)),
        sc(1),
        Material::Lambertian(gray()),
    );
    let r0 = Ray::new(Point::new(sc(0), sc(0), sc(0)), Vector::new(sc(0), sc(0), sc(-1)), sc(0));
    let h0 = e.hit(&r0, &Interval::new(sc(0), sc(100))).unwrap();
    assert_eq!(h0.t, sc(2));

    let r1 = Ray::new(Point::new(sc(0), sc(0), sc(0)), Vector::new(sc(0), sc(0), sc(-1)), sc(1));
    assert!(e.hit(&r1, &Interval::new(sc(0), sc(100))).is_none());
}

#[test]
fn ppm_black_white() {
    assert_eq!(Color::black().to_ppm(), "0 0 0");
    assert_eq!(Color::white().to_ppm(), "255 255 255");
}

#[test]
fn ppm_boundary_and_monotone() {
    let almost_one = Scalar::from_raw(65470);
    let over = Vec3::new(almost_one, sc(2), sc(100));
    assert_eq!(over.to_ppm(), "255 255 255");

    let quarter = Vec3::new(sr(1, 4), sr(1, 4), sr(1, 4));
    assert_eq!(quarter.to_ppm(), "128 128 128");
    let half = Vec3::new(sr(1, 2), sr(1, 2), sr(1, 2));
    assert_eq!(half.to_ppm(), "181 181 181");
}

#[test]
fn lambertian_attenuation() {
    let albedo = Vec3::new(sr(3, 4), sr(1, 2), sr(1, 4));
    let m = Material::Lambertian(albedo);
    let r = Ray::new(Point::new(sc(0), sc(0), sc(0)), Vector::new(sc(0), sc(0), sc(-1)), sc(0));
    let hr = HitRecord::new(
        Point::new(sc(0), sc(0), sc(-1)),
        Vector::new(sc(0), sc(0), sc(1)),
        sc(1),
        &r,
        m,
    );
    let s = m.scatter(&r, &hr).unwrap();
    assert_eq!(s.attenuation, albedo);
    assert_eq!(s.scattered.origin, hr.p);
    assert_eq!(s.scattered.time, r.time);
}

#[test]
fn metal_attenuation() {
    let albedo = Vec3::new(sr(7, 8), sr(3, 4), sr(5, 8));
    let m = Material::Metal(albedo, sr(1, 4));
    let r = Ray::new(Point::new(sc(0), sc(0), sc(0)), Vector::new(sc(1), sc(0), sc(-1)), sc(0));
    let hr = HitRecord::new(
        Point::new(sc(0), sc(0), sc(-1)),
        Vector::new(sc(0), sc(0), sc(1)),
        sc(1),
        &r,
        m,
    );
    let s = m.scatter(&r, &hr).unwrap();
    assert_eq!(s.attenuation, albedo);
}

#[test]
fn dielectric_white() {
    let m = Material::Dielectric(sr(3, 2));
    let r = Ray::new(Point::new(sc(0), sc(0), sc(0)), Vector::new(sc(0), sc(0), sc(-1)), sc(0));
    let hr = HitRecord::new(
        Point::new(sc(0), sc(0), sc(-1)),
        Vector::new(sc(0), sc(0), sc(1)),
        sc(1),
        &r,
        m,
    );
    let s = m.scatter(&r, &hr).unwrap();
    assert_eq!(s.attenuation, Color::white());
    assert_eq!(s.scattered.time, r.time);
}

#[test]
fn empty_scene_sky() {
    let w = World::new();
    let r = Ray::new(Point::new(sc(0), sc(0), sc(0)), Vector::new(sc(0), sc(1), sc(0)), sc(0));
    let col = ray_color(&r, 5, &w);

    assert_eq!(col.x, sr(1, 2));
    assert!(col.y.raw > 45000);
    assert_eq!(col.z, sc(1));
}

#[test]
fn dielectric_total_internal_reflection() {
    let m = Material::Dielectric(sr(3, 2));
    let dir = Vector::new(sr(9, 10), sc(0), sr(1, 2));
    let r = Ray::new(Point::new(sc(0), sc(0), sc(0)), dir, sc(0));
    let hr = HitRecord::new(
        Point::new(sc(0), sc(0), sc(0)),
        Vector::new(sc(0), sc(0), sc(1)),
        sc(1),
        &r,
        m,
    );
    assert!(!hr.front_face);

    let s = m.scatter(&r, &hr).unwrap();
    let expected = dir.normalize().reflect(hr.normal);
    assert_eq!(s.scattered.direction, expected);
}

#[test]
fn dielectric_normal_incidence() {
    let index = sr(3, 2);
    let m = Material::Dielectric(index);
    let dir = Vector::new(sc(0), sc(0), sc(-1));
    let r = Ray::new(Point::new(sc(0), sc(0), sc(0)), dir, sc(0));
    let hr = HitRecord::new(
        Point::new(sc(0), sc(0), sc(-1)),
        Vector::new(sc(0), sc(0), sc(1)),
        sc(1),
        &r,
        m,
    );
    assert!(hr.front_face);

    let s = m.scatter(&r, &hr).unwrap();
    let unit = dir.normalize();
    let refracted = unit.refract(hr.normal, sc(1).div(index));
    let reflected = unit.reflect(hr.normal);
    let got = s.scattered.direction;
    assert!(got == refracted || got == reflected);
}

#[test]
fn schlick_reflectance_values() {
    let ri = sc(1).div(sr(3, 2));

    assert_eq!(rust_tracer::material::reflectance(sc(1), ri).raw, 2621);
    assert_eq!(rust_tracer::material::reflectance(sc(0), ri), sc(1));
}

#[test]
fn trait_hit_agrees() {
    let e = Entity::sphere(Point::new(sc(0), sc(0), sc(-3)), sc(1), Material::Lambertian(gray()));
    let r = Ray::new(Point::new(sc(0), sc(0), sc(0)), Vector::new(sc(0), sc(0), sc(-1)), sc(0));
    let i = Interval::new(sc(0), sc(10));

    let through_trait = Hittable::hit(&e, &r, &i);
    let direct = e.hit(&r, &i);
    assert_eq!(through_trait, direct);

    let mut w = World::new();
    w.add(e);
    let via_world = Hittable::hit(&w, &r, &i).unwrap();
    assert_eq!(via_world.t, sc(2));
}

fn test_camera() -> Camera {
    let mut c = Camera::new();
    c.image_width = 400;
    c.aspect_ratio = sr(16, 9);
    c.samples_per_pixel = 1;
    c.max_depth = 10;
    c.vfov_tan_half = sc(1);
    c.lookfrom = Point::new(sc(0), sc(0), sc(0));
    c.lookat = Point::new(sc(0), sc(0), sc(-1));
    c.vup = Vector::new(sc(0), sc(1), sc(0));
    c.defocus_tan_half = sc(0);
    c.focus_dist = sc(1);
    c
}

fn test_world() -> World {
    let mut w = World::new();
    w.add(Entity::sphere(Point::new(sc(0), sc(0), sc(-1)), sr(1, 2), Material::Lambertian(
        gray(),
    )));
    w.add(Entity::sphere(Point::new(sc(0), sr(-201, 2), sc(-1)), sc(100), Material::Lambertian(
        gray(),
    )));
    w
}

#[test]
fn center_pixel_normal() {
    let mut c = test_camera();
    assert!(c.initialize());
    assert_eq!(c.image_height, 225);

    let w = test_world();
    let zero_disk = Vec3::new(sc(0), sc(0), sc(0));
    let ray = c.get_ray(200, 112, sc(0), sc(0), sc(0), zero_disk);
    let hit = w.hit(&ray, &Interval::new(sr(1, 1000), sc(1000))).unwrap();

    assert_eq!(hit.t, sr(1, 2));
    assert!(hit.front_face);
    assert_eq!(hit.normal.z, sc(1));
    assert!(hit.normal.x.raw.abs() < 400);
    assert!(hit.normal.y.raw.abs() < 400);

    let mapped = hit.normal.add(Color::white()).mul(sr(1, 2));
    assert_eq!(mapped.z, sc(1));
    assert!(32768 <= mapped.x.raw && mapped.x.raw < 33100);
    assert!(32768 <= mapped.y.raw && mapped.y.raw < 33100);
}

#[test]
fn background_gradient() {
    let mut c = test_camera();
    assert!(c.initialize());
    let w = test_world();
    let zero_disk = Vec3::new(sc(0), sc(0), sc(0));

    let corner = c.get_ray(0, 0, sc(0), sc(0), sc(0), zero_disk);
    let col = ray_color(&corner, 10, &w);
    assert!(col.x.raw <= col.y.raw && col.y.raw <= col.z.raw);
    assert!(col.z.raw > 60000);
    assert!(col.x.raw < 60000);
}

#[test]
fn depth_zero_black() {
    let mut c = test_camera();
    c.image_width = 16;
    c.samples_per_pixel = 2;
    c.max_depth = 0;
    let w = test_world();
    let lines = c.render(&w).unwrap();
    assert_eq!(lines.len(), 16 * 9);
    for line in lines.iter() {
        assert_eq!(line, "0 0 0");
    }
}

#[test]
fn degenerate_camera_rejected() {
    let mut c = test_camera();
    c.vup = Vector::new(sc(0), sc(0), sc(1));
    let w = test_world();
    assert!(c.render(&w).is_none());
}
