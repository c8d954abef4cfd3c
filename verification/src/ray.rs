//! Rays: an origin, a direction, and a time for motion interpolation.

use crate::scalar::Scalar;
use crate::vec3::{add3, fits3, smul3, Point, Vec3, Vector};
use vstd::prelude::*;

verus! {

#[derive(Clone, Copy, PartialEq, Eq, Structural, Debug)]
pub struct Ray {
    pub origin: Point,
    pub direction: Vector,
    pub time: Scalar,
}

/// The point a parameter `t` along a ray: `origin + t * direction`.
pub open spec fn at3(origin: (int, int, int), direction: (int, int, int), t: int) -> (
    int,
    int,
    int,
) {
    add3(origin, smul3(direction, t))
}

/// Whether evaluating a ray at `t` stays within machine range.
pub open spec fn at_fits3(origin: (int, int, int), direction: (int, int, int), t: int) -> bool {
    fits3(smul3(direction, t)) && fits3(at3(origin, direction, t))
}

impl Ray {
    pub fn new(origin: Point, direction: Vector, time: Scalar) -> (r: Ray)
        ensures
            r.origin == origin,
            r.direction == direction,
            r.time == time,
    {
        Ray { origin, direction, time }
    }

    /// The point the ray reaches at parameter `t`, for any `t` in range,
    /// ahead of or behind the origin.
    pub fn at(&self, t: Scalar) -> (r: Point)
        requires
            at_fits3(self.origin@, self.direction@, t@),
        ensures
            r@ == at3(self.origin@, self.direction@, t@),
    {
        self.origin.add(self.direction.mul(t))
    }

    /// The point at `t`, or `None` where the evaluation leaves machine
    /// range.
    pub fn checked_at(&self, t: Scalar) -> (r: Option<Point>)
        ensures
            match r {
                Some(p) => at_fits3(self.origin@, self.direction@, t@) && p@ == at3(
                    self.origin@,
                    self.direction@,
                    t@,
                ),
                None => !at_fits3(self.origin@, self.direction@, t@),
            },
    {
        let sx = match self.direction.x.checked_mul(t) {
            Some(v) => v,
            None => {
                return None;
            },
        };
        let sy = match self.direction.y.checked_mul(t) {
            Some(v) => v,
            None => {
                return None;
            },
        };
        let sz = match self.direction.z.checked_mul(t) {
            Some(v) => v,
            None => {
                return None;
            },
        };
        let ox = self.origin.x.raw;
        let oy = self.origin.y.raw;
        let oz = self.origin.z.raw;
        if (sx.raw > 0 && ox > i64::MAX - sx.raw) || (sx.raw < 0 && ox < i64::MIN - sx.raw) {
            return None;
        }
        if (sy.raw > 0 && oy > i64::MAX - sy.raw) || (sy.raw < 0 && oy < i64::MIN - sy.raw) {
            return None;
        }
        if (sz.raw > 0 && oz > i64::MAX - sz.raw) || (sz.raw < 0 && oz < i64::MIN - sz.raw) {
            return None;
        }
        Some(
            Vec3::new(
                Scalar { raw: ox + sx.raw },
                Scalar { raw: oy + sy.raw },
                Scalar { raw: oz + sz.raw },
            ),
        )
    }
}

} // verus!
