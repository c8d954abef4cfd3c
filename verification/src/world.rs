//! The scene: an ordered collection of entities, intersected by a linear
//! scan that narrows the search interval to the closest hit found so far.

use crate::entity::Entity;
use crate::hit_record::HitRecord;
use crate::interval::Interval;
use crate::material::Material;
use crate::ray::Ray;
use crate::vec3::{dot3, dot_fits3, lemma_ls3_nonneg, ls3, neg3};
use vstd::prelude::*;

verus! {

pub struct World {
    pub entities: Vec<Entity>,
}

/// The fold the scan computes from member `k` on: the best hit so far, its
/// parameter narrowing the upper bound for the members after it.
pub open spec fn world_hit_loop(
    es: Seq<Entity>,
    k: int,
    ray: Ray,
    lo: int,
    closest: int,
    best: Option<(int, (int, int, int), (int, int, int), Material)>,
) -> Option<(int, (int, int, int), (int, int, int), Material)>
    decreases es.len() - k,
{
    if k < 0 || k >= es.len() {
        best
    } else {
        match es[k].hit_spec_raw(ray, lo, closest) {
            None => world_hit_loop(es, k + 1, ray, lo, closest, best),
            Some(h) => world_hit_loop(es, k + 1, ray, lo, h.0, Some((h.0, h.1, h.2, es[k].material_of()))),
        }
    }
}

/// The nearest hit of the scene: the scan's fold over all members.
pub open spec fn world_hit_spec(es: Seq<Entity>, ray: Ray, lo: int, hi: int) -> Option<
    (int, (int, int, int), (int, int, int), Material),
> {
    world_hit_loop(es, 0, ray, lo, hi, None)
}

/// The outward-normal tuple a record stands for: undoing the orientation
/// flip recovers the geometric normal.
pub open spec fn tuple_of_rec(r: Option<HitRecord>) -> Option<
    (int, (int, int, int), (int, int, int), Material),
> {
    match r {
        Some(rec) => Some(
            (
                rec.t@,
                rec.p@,
                if rec.front_face {
                    rec.normal@
                } else {
                    neg3(rec.normal@)
                },
                rec.material,
            ),
        ),
        None => None,
    }
}

/// What the scan promises of the returned record, relative to the fold's
/// tuple.
pub open spec fn world_rec_matches(
    r: Option<HitRecord>,
    w: Option<(int, (int, int, int), (int, int, int), Material)>,
    rd: (int, int, int),
) -> bool {
    match r {
        Some(rec) => {
            &&& w is Some
            &&& rec.t@ == w->Some_0.0
            &&& rec.p@ == w->Some_0.1
            &&& rec.material == w->Some_0.3
            &&& rec.front_face == (dot3(rd, w->Some_0.2) < 0)
            &&& rec.normal@ == (if dot3(rd, w->Some_0.2) < 0 {
                w->Some_0.2
            } else {
                neg3(w->Some_0.2)
            })
            &&& rec.wf()
            &&& dot3(rec.normal@, rd) <= 0
        },
        None => w is None,
    }
}

/// The fold keeps its result inside the interval it started from: each accepted
/// hit passes the narrowed interval test, and narrowing only tightens the
/// upper bound.
pub proof fn lemma_world_hit_in_interval(
    es: Seq<Entity>,
    k: int,
    ray: Ray,
    lo: int,
    closest: int,
    best: Option<(int, (int, int, int), (int, int, int), Material)>,
)
    requires
        best is Some ==> lo <= best->Some_0.0 <= closest,
        world_hit_loop(es, k, ray, lo, closest, best) is Some,
    ensures
        lo <= world_hit_loop(es, k, ray, lo, closest, best)->Some_0.0 <= closest,
    decreases es.len() - k,
{
    if 0 <= k < es.len() {
        match es[k].hit_spec_raw(ray, lo, closest) {
            None => {
                lemma_world_hit_in_interval(es, k + 1, ray, lo, closest, best);
            },
            Some(h) => {
                match es[k] {
                    Entity::Sphere(center, radius, _) => {
                        crate::entity::lemma_sphere_hit_in_interval(
                            ray.origin@,
                            ray.direction@,
                            ray.time@,
                            center.origin@,
                            center.direction@,
                            radius@,
                            lo,
                            closest,
                        );
                    },
                }
                lemma_world_hit_in_interval(
                    es,
                    k + 1,
                    ray,
                    lo,
                    h.0,
                    Some((h.0, h.1, h.2, es[k].material_of())),
                );
            },
        }
    }
}

/// The scan's fold finds the nearest hit: whenever a member from `k` on
/// hits within the whole interval `[lo, hi0]`, the fold ends on a hit
/// whose parameter is no larger than that member's. The fold's narrowed
/// bound is the best parameter so far, or the whole bound before any hit.
pub proof fn lemma_world_hit_nearest(
    es: Seq<Entity>,
    k: int,
    ray: Ray,
    lo: int,
    hi0: int,
    closest: int,
    best: Option<(int, (int, int, int), (int, int, int), Material)>,
)
    requires
        0 <= k,
        lo <= closest <= hi0,
        best is Some ==> best->Some_0.0 == closest,
        best is None ==> closest == hi0,
    ensures
        best is Some ==> world_hit_loop(es, k, ray, lo, closest, best) is Some,
        forall|i: int|
            k <= i < es.len() && (#[trigger] es[i].hit_spec_raw(ray, lo, hi0)) is Some
                ==> world_hit_loop(es, k, ray, lo, closest, best) is Some && world_hit_loop(
                es,
                k,
                ray,
                lo,
                closest,
                best,
            )->Some_0.0 <= es[i].hit_spec_raw(ray, lo, hi0)->Some_0.0,
    decreases es.len() - k,
{
    if k >= es.len() {
    } else {
        let e = es[k];
        let res = world_hit_loop(es, k, ray, lo, closest, best);
        match e.hit_spec_raw(ray, lo, closest) {
            None => {
                lemma_world_hit_nearest(es, k + 1, ray, lo, hi0, closest, best);
                assert forall|i: int|
                    k <= i < es.len() && (#[trigger] es[i].hit_spec_raw(ray, lo, hi0))
                        is Some implies res is Some && res->Some_0.0 <= es[i].hit_spec_raw(
                    ray,
                    lo,
                    hi0,
                )->Some_0.0 by {
                    if i == k {
                        let tk = e.hit_spec_raw(ray, lo, hi0)->Some_0.0;
                        match e {
                            Entity::Sphere(cen, rad, _) => {
                                crate::entity::lemma_sphere_hit_in_interval(
                                    ray.origin@,
                                    ray.direction@,
                                    ray.time@,
                                    cen.origin@,
                                    cen.direction@,
                                    rad@,
                                    lo,
                                    hi0,
                                );
                                if tk <= closest {
                                    crate::entity::lemma_sphere_hit_narrow(
                                        ray.origin@,
                                        ray.direction@,
                                        ray.time@,
                                        cen.origin@,
                                        cen.direction@,
                                        rad@,
                                        lo,
                                        hi0,
                                        closest,
                                    );
                                    assert(false);
                                }
                            },
                        }
                        assert(tk > closest);
                        assert(best is Some);
                        lemma_world_hit_in_interval(es, k + 1, ray, lo, closest, best);
                    }
                }
            },
            Some(hk) => {
                let nb = Some((hk.0, hk.1, hk.2, e.material_of()));
                match e {
                    Entity::Sphere(cen, rad, _) => {
                        crate::entity::lemma_sphere_hit_in_interval(
                            ray.origin@,
                            ray.direction@,
                            ray.time@,
                            cen.origin@,
                            cen.direction@,
                            rad@,
                            lo,
                            closest,
                        );
                    },
                }
                lemma_world_hit_nearest(es, k + 1, ray, lo, hi0, hk.0, nb);
                lemma_world_hit_in_interval(es, k + 1, ray, lo, hk.0, nb);
                assert forall|i: int|
                    k <= i < es.len() && (#[trigger] es[i].hit_spec_raw(ray, lo, hi0))
                        is Some implies res is Some && res->Some_0.0 <= es[i].hit_spec_raw(
                    ray,
                    lo,
                    hi0,
                )->Some_0.0 by {
                    if i == k {
                        let tk = e.hit_spec_raw(ray, lo, hi0)->Some_0.0;
                        if tk <= closest {
                            match e {
                                Entity::Sphere(cen, rad, _) => {
                                    crate::entity::lemma_sphere_hit_narrow(
                                        ray.origin@,
                                        ray.direction@,
                                        ray.time@,
                                        cen.origin@,
                                        cen.direction@,
                                        rad@,
                                        lo,
                                        hi0,
                                        closest,
                                    );
                                },
                            }
                            assert(hk.0 == tk);
                        }
                        assert(res->Some_0.0 <= hk.0);
                    }
                }
            },
        }
    }
}

/// A fold that starts without a best hit and ends with one passed through
/// a member whose intersection succeeded, so the ray's direction neither
/// vanishes nor leaves machine range.
pub proof fn lemma_world_hit_dir(es: Seq<Entity>, k: int, ray: Ray, lo: int, closest: int)
    requires
        world_hit_loop(es, k, ray, lo, closest, None) is Some,
    ensures
        dot_fits3(ray.direction@, ray.direction@),
        1 <= ls3(ray.direction@),
    decreases es.len() - k,
{
    if 0 <= k < es.len() {
        match es[k].hit_spec_raw(ray, lo, closest) {
            None => {
                lemma_world_hit_dir(es, k + 1, ray, lo, closest);
            },
            Some(h) => {
                lemma_ls3_nonneg(ray.direction@);
            },
        }
    }
}

impl World {
    /// A well-formed scene: every member is well-formed.
    pub open spec fn wf(self) -> bool {
        forall|i: int| 0 <= i < self.entities@.len() ==> self.entities@[i].wf()
    }

    pub fn new() -> (r: World)
        ensures
            r.entities@.len() == 0,
            r.wf(),
    {
        World { entities: Vec::new() }
    }

    /// Adds an entity; order is kept, though the nearest hit wins whatever
    /// the order.
    pub fn add(&mut self, entity: Entity)
        requires
            old(self).wf(),
            entity.wf(),
        ensures
            final(self).entities@ == old(self).entities@.push(entity),
            final(self).wf(),
    {
        self.entities.push(entity);
        proof {
            assert forall|i: int| 0 <= i < self.entities@.len() implies self.entities@[i].wf() by {
                if i < self.entities@.len() - 1 {
                    assert(self.entities@[i] == old(self).entities@[i]);
                }
            }
        }
    }

    /// The nearest intersection among all members whose parameter lies in
    /// the interval, or `None` where every member misses.
    pub fn hit(&self, ray: &Ray, interval: &Interval) -> (r: Option<HitRecord>)
        requires
            self.wf(),
        ensures
            world_rec_matches(
                r,
                world_hit_spec(self.entities@, *ray, interval.min@, interval.max@),
                ray.direction@,
            ),
            r is Some ==> exists|k: int|
                0 <= k < self.entities@.len() && #[trigger] self.entities@[k].material_of()
                    == r->Some_0.material,
            r is Some ==> interval.min@ <= r->Some_0.t@ <= interval.max@,
            interval.min@ <= interval.max@ ==> forall|i: int|
                0 <= i < self.entities@.len() && (#[trigger] self.entities@[i].hit_spec_raw(
                    *ray,
                    interval.min@,
                    interval.max@,
                )) is Some ==> r is Some && r->Some_0.t@ <= self.entities@[i].hit_spec_raw(
                    *ray,
                    interval.min@,
                    interval.max@,
                )->Some_0.0,
    {
        let ghost es = self.entities@;
        let ghost lo = interval.min@;
        let ghost hi = interval.max@;
        let mut hit_record: Option<HitRecord> = None;
        let mut closest = interval.max;
        let mut i: usize = 0;
        while i < self.entities.len()
            invariant
                self.wf(),
                es == self.entities@,
                lo == interval.min@,
                hi == interval.max@,
                i <= self.entities.len(),
                closest@ == (match hit_record {
                    Some(rec) => rec.t@,
                    None => hi,
                }),
                world_hit_loop(es, i as int, *ray, lo, closest@, tuple_of_rec(hit_record))
                    == world_hit_spec(es, *ray, lo, hi),
                world_rec_matches(hit_record, tuple_of_rec(hit_record), ray.direction@)
                    || hit_record is None,
                hit_record is Some ==> exists|k: int|
                    0 <= k < es.len() && #[trigger] es[k].material_of()
                        == hit_record->Some_0.material,
            decreases self.entities.len() - i,
        {
            let entity = self.entities[i];
            let narrowed = Interval::new(interval.min, closest);
            let step = entity.hit(ray, &narrowed);
            match step {
                None => {},
                Some(rec) => {
                    proof {
                        let s = entity.hit_spec_raw(*ray, lo, closest@);
                        assert(s is Some);
                        assert(tuple_of_rec(Some(rec)) == Some(
                            (s->Some_0.0, s->Some_0.1, s->Some_0.2, entity.material_of()),
                        ));
                        assert(es[i as int].material_of() == rec.material);
                    }
                    closest = rec.t;
                    hit_record = Some(rec);
                },
            }
            i = i + 1;
        }
        proof {
            if hit_record is Some {
                lemma_world_hit_in_interval(es, 0, *ray, lo, hi, None);
            }
            if lo <= hi {
                lemma_world_hit_nearest(es, 0, *ray, lo, hi, hi, None);
            }
        }
        hit_record
    }
}

} // verus!
