//! The record of one confirmed intersection.

use crate::material::Material;
use crate::ray::Ray;
use crate::scalar::{Scalar, SCALE};
use crate::vec3::{bounded3, dot3, dot_fits3, fits3, lemma_dot3_comm, lemma_dot3_neg, neg3, Point,
    Vector};
use vstd::prelude::*;

verus! {

#[derive(Clone, Copy, PartialEq, Eq, Structural, Debug)]
pub struct HitRecord {
    pub p: Point,
    pub normal: Vector,
    pub t: Scalar,
    pub front_face: bool,
    pub material: Material,
}

impl HitRecord {
    /// The record is fit for scattering: its normal is near unit length.
    pub open spec fn wf(self) -> bool {
        bounded3(self.normal@, 2 * SCALE)
    }

    /// Builds the record with the orientation correction: the stored normal
    /// opposes the incoming ray, and `front_face` says whether the given
    /// outward normal already did.
    pub fn new(p: Point, normal: Vector, t: Scalar, ray: &Ray, material: Material) -> (r:
        HitRecord)
        requires
            dot_fits3(ray.direction@, normal@),
            fits3(neg3(normal@)),
        ensures
            r.p == p,
            r.t == t,
            r.material == material,
            r.front_face == (dot3(ray.direction@, normal@) < 0),
            r.normal@ == if dot3(ray.direction@, normal@) < 0 {
                normal@
            } else {
                neg3(normal@)
            },
            dot3(ray.direction@, r.normal@) <= 0,
            dot3(r.normal@, ray.direction@) <= 0,
    {
        proof {
            lemma_dot3_neg(ray.direction@, normal@);
            lemma_dot3_comm(ray.direction@, normal@);
            lemma_dot3_comm(ray.direction@, neg3(normal@));
        }
        let front_face = ray.direction.dot(normal).raw < 0;
        let oriented = if front_face {
            normal
        } else {
            normal.neg()
        };
        HitRecord { p, normal: oriented, t, front_face, material }
    }
}

} // verus!
