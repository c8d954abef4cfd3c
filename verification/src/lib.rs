pub mod camera;
pub mod color;
pub mod entity;
pub mod hit_record;
pub mod hittable;
pub mod interval;
pub mod material;
pub mod ray;
pub mod rng;
pub mod scalar;
pub mod vec3;
pub mod world;
