//! The uniform intersection contract: every primitive and the scene
//! aggregate answer a ray the same way, with the nearest admissible hit.

use crate::entity::{hit_matches, Entity};
use crate::hit_record::HitRecord;
use crate::interval::Interval;
use crate::ray::Ray;
use crate::world::{world_hit_spec, world_rec_matches, World};
use vstd::prelude::*;

verus! {

pub trait Hittable {
    /// What the implementor asks of a call.
    spec fn hit_req(&self, r: Ray, i: Interval) -> bool;

    /// What the returned record satisfies.
    spec fn hit_post(&self, r: Ray, i: Interval, res: Option<HitRecord>) -> bool;

    /// The nearest intersection whose parameter lies in the interval, or
    /// `None`.
    fn hit(&self, r: &Ray, i: &Interval) -> (res: Option<HitRecord>)
        requires
            self.hit_req(*r, *i),
        ensures
            self.hit_post(*r, *i, res),
    ;
}

impl Hittable for Entity {
    open spec fn hit_req(&self, r: Ray, i: Interval) -> bool {
        self.wf()
    }

    open spec fn hit_post(&self, r: Ray, i: Interval, res: Option<HitRecord>) -> bool {
        hit_matches(res, self.hit_spec(r, i), r.direction@, self.material_of())
    }

    fn hit(&self, r: &Ray, i: &Interval) -> (res: Option<HitRecord>) {
        Entity::hit(self, r, i)
    }
}

impl Hittable for World {
    open spec fn hit_req(&self, r: Ray, i: Interval) -> bool {
        self.wf()
    }

    open spec fn hit_post(&self, r: Ray, i: Interval, res: Option<HitRecord>) -> bool {
        world_rec_matches(res, world_hit_spec(self.entities@, r, i.min@, i.max@), r.direction@)
    }

    fn hit(&self, r: &Ray, i: &Interval) -> (res: Option<HitRecord>) {
        World::hit(self, r, i)
    }
}

} // verus!
