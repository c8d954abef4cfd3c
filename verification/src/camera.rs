//! The camera: derived view state, per-pixel jittered ray generation, the
//! recursive integrator, and the frame loop.
//!
//! Configuration is set on the public fields; `initialize` derives the
//! view basis and pixel grid once, checking every step, and `render`
//! produces the pixel lines in row-major order. The field-of-view and
//! defocus angles enter as tangents of their half-angles, which is the
//! only form the derivation uses.

use crate::color::{ppm_chars, Color};
use crate::entity::Entity;
use crate::interval::{clamp_spec, Interval};
use crate::material::{attenuation_of, color_in_unit, lemma_mul3_in_unit, material_wf,
    scatter_dir_ok, DIR_BOUND};
use crate::ray::Ray;
use crate::rng::random_raw;
use crate::scalar::{lemma_tdiv_mul_cancel, sdiv, smul, tdiv, Scalar, SCALE};
use crate::vec3::{add3, bounded3, cross3, div3, dot3, lemma_cross3_bounded,
    lemma_div3_bounded, lemma_dot3_bounded, lemma_ls3_nonneg, lemma_sdiv_bounded,
    lemma_smul3_bounded, lemma_smul_bounded, lemma_tdiv_bound, lemma_tdiv_mono, ls3, mul3, neg3,
    norm3, smul3, sub3, Point, Vec3, Vector};
use crate::world::{lemma_world_hit_dir, world_hit_spec, World};
use vstd::prelude::*;

verus! {

/// The lower hit bound of the integrator: just under a thousandth, so a
/// scattered ray cannot immediately re-hit its own surface.
pub const HIT_EPS_RAW: i64 = 65;

/// The upper hit bound of the integrator: the largest representable
/// parameter stands in for an unbounded reach.
pub const T_MAX_RAW: i64 = 0x7fff_ffff_ffff_ffff;

/// The sky a missed ray returns: white blended toward sky blue by the
/// unit direction's height, the blend clamped into the unit range.
pub open spec fn sky_spec(d: (int, int, int)) -> (int, int, int) {
    let u = norm3(d);
    let a = clamp_spec(0, SCALE as int, smul(32768, u.1 + SCALE));
    (
        smul(SCALE as int, SCALE - a) + smul(32768, a),
        smul(SCALE as int, SCALE - a) + smul(45875, a),
        smul(SCALE as int, SCALE - a) + smul(65536, a),
    )
}

/// One continuation step of the integrator: a scattered ray together
/// with the unit color carried back along it. Its own predicate, so the
/// quantifier over the pair has a stable handle.
pub open spec fn scatter_choice(sr: Ray, sub: (int, int, int)) -> bool {
    color_in_unit(sub)
}

/// A color the integrator can hand back for a ray at a depth over a
/// scene, one clause per branch of the computation: black with the depth
/// budget exhausted; the sky on a miss, or black for a direction that
/// vanishes at the working precision; and on a hit, the material's
/// attenuation times a possible color of a scattered ray that the
/// material's own scattering clause admits, started at the hit point with
/// the incoming ray's time.
pub open spec fn possible_ray_color(
    ray: Ray,
    depth: u32,
    es: Seq<Entity>,
    c: (int, int, int),
) -> bool
    decreases depth,
{
    if depth == 0 {
        c == (0int, 0int, 0int)
    } else {
        let w = world_hit_spec(es, ray, HIT_EPS_RAW as int, T_MAX_RAW as int);
        if w is None {
            if 1 <= ls3(ray.direction@) {
                c == sky_spec(ray.direction@)
            } else {
                c == (0int, 0int, 0int)
            }
        } else {
            let h = w->Some_0;
            exists|sr: Ray, sub: (int, int, int)|
                {
                    &&& #[trigger] scatter_choice(sr, sub)
                    &&& sr.origin@ == h.1
                    &&& sr.time == ray.time
                    &&& scatter_dir_ok(
                        h.3,
                        ray.direction@,
                        dot3(ray.direction@, h.2) < 0,
                        if dot3(ray.direction@, h.2) < 0 {
                            h.2
                        } else {
                            neg3(h.2)
                        },
                        sr.direction@,
                    )
                    &&& bounded3(sr.direction@, 0x1_0000_0000)
                    &&& possible_ray_color(sr, (depth - 1) as u32, es, sub)
                    &&& c == mul3(attenuation_of(h.3), sub)
                }
        }
    }
}

/// The color carried back along a ray: black at depth zero; the sky on a
/// miss; on a hit, the material's attenuation times the color of the
/// scattered ray. A direction that vanishes at the working precision is
/// treated as absorbed. Every result is a possible integrator color, with
/// the hit case bound to a scattered ray the material's clause admits.
pub fn ray_color(ray: &Ray, depth: u32, world: &World) -> (r: Color)
    requires
        world.wf(),
        bounded3(ray.direction@, DIR_BOUND as int),
    ensures
        color_in_unit(r@),
        depth == 0 ==> r@ == (0int, 0int, 0int),
        ({
            let w = world_hit_spec(world.entities@, *ray, HIT_EPS_RAW as int, T_MAX_RAW as int);
            &&& (depth > 0 && w is None && 1 <= ls3(ray.direction@) ==> r@ == sky_spec(
                ray.direction@,
            ))
            &&& (depth > 0 && w is None && ls3(ray.direction@) < 1 ==> r@ == (0int, 0int, 0int))
        }),
        possible_ray_color(*ray, depth, world.entities@, r@),
    decreases depth,
{
    if depth == 0 {
        return Color::black();
    }
    let iv = Interval::new(Scalar { raw: HIT_EPS_RAW }, Scalar { raw: T_MAX_RAW });
    let hit = world.hit(ray, &iv);
    match hit {
        Some(rec) => {
            proof {
                lemma_world_hit_dir(
                    world.entities@,
                    0,
                    *ray,
                    HIT_EPS_RAW as int,
                    T_MAX_RAW as int,
                );
                let k = choose|k: int|
                    0 <= k < world.entities@.len() && #[trigger] world.entities@[
                        k
                    ].material_of() == rec.material;
                assert(world.entities@[k].wf());
                assert(material_wf(rec.material));
            }
            match rec.material.scatter(ray, &rec) {
                Some(sc) => {
                    let rest = ray_color(&sc.scattered, depth - 1, world);
                    proof {
                        lemma_mul3_in_unit(sc.attenuation@, rest@);
                    }
                    let out = sc.attenuation.mul_vec(rest);
                    proof {
                        let ghost w = world_hit_spec(
                            world.entities@,
                            *ray,
                            HIT_EPS_RAW as int,
                            T_MAX_RAW as int,
                        );
                        let ghost h = w->Some_0;
                        assert(sc.scattered.origin@ == h.1);
                        assert(scatter_dir_ok(
                            h.3,
                            ray.direction@,
                            dot3(ray.direction@, h.2) < 0,
                            if dot3(ray.direction@, h.2) < 0 {
                                h.2
                            } else {
                                neg3(h.2)
                            },
                            sc.scattered.direction@,
                        ));
                        assert(color_in_unit(rest@) && out@ == mul3(
                            attenuation_of(rec.material),
                            rest@,
                        ));
                        assert(possible_ray_color(
                            sc.scattered,
                            (depth - 1) as u32,
                            world.entities@,
                            rest@,
                        ));
                        assert(scatter_choice(sc.scattered, rest@));
                        assert(possible_ray_color(*ray, depth, world.entities@, out@));
                    }
                    out
                },
                None => {
                    proof {
                        assert(false);
                    }
                    Color::black()
                },
            }
        },
        None => {
            proof {
                assert(3 * (DIR_BOUND as int) * (DIR_BOUND as int) <= 0x7fff_ffff_ffff_ffffint
                    * 0x1_0000) by (nonlinear_arith);
                lemma_dot3_bounded(
                    ray.direction@,
                    ray.direction@,
                    DIR_BOUND as int,
                    DIR_BOUND as int,
                );
                lemma_ls3_nonneg(ray.direction@);
            }
            let lsq = ray.direction.length_squared();
            if lsq.raw < 1 {
                return Color::black();
            }
            let unit_direction = ray.direction.normalize();
            let y1 = Scalar { raw: unit_direction.y.raw + SCALE };
            proof {
                assert(32768 * (3 * SCALE) == 98304 * (SCALE as int)) by (nonlinear_arith);
                lemma_tdiv_mul_cancel(98304, SCALE as int);
                lemma_smul_bounded(32768, y1@, 32768, 3 * SCALE);
            }
            let a0 = Scalar { raw: 32768 }.mul(y1);
            let a = Interval::new(Scalar { raw: 0 }, Scalar { raw: SCALE }).clamp(a0);
            let sm = Scalar { raw: SCALE - a.raw };
            proof {
                let s = SCALE as int;
                assert((SCALE as int) * (SCALE - a@) == (SCALE - a@) * (SCALE as int)) by (
                nonlinear_arith);
                lemma_tdiv_mul_cancel(SCALE - a@, SCALE as int);
                assert(0 <= 32768 * a@ <= s * a@ && 0 <= 45875 * a@ <= s * a@ && 0 <= 65536 * a@
                    <= s * a@ && s * a@ == a@ * s) by (nonlinear_arith)
                    requires
                        0 <= a@ <= s,
                        s == SCALE as int,
                ;
                lemma_tdiv_mul_cancel(a@, s);
                lemma_tdiv_mono(32768 * a@, a@ * s, s);
                lemma_tdiv_mono(45875 * a@, a@ * s, s);
                lemma_tdiv_mono(65536 * a@, a@ * s, s);
                lemma_tdiv_bound(32768 * a@, s * s, s);
                lemma_tdiv_bound(45875 * a@, s * s, s);
                lemma_tdiv_bound(65536 * a@, s * s, s);
            }
            let ws = Scalar { raw: SCALE }.mul(sm);
            let br = Scalar { raw: 32768 }.mul(a);
            let bg = Scalar { raw: 45875 }.mul(a);
            let bb = Scalar { raw: 65536 }.mul(a);
            Vec3::new(
                Scalar { raw: ws.raw + br.raw },
                Scalar { raw: ws.raw + bg.raw },
                Scalar { raw: ws.raw + bb.raw },
            )
        },
    }
}

pub struct Camera {
    pub image_width: u32,
    pub aspect_ratio: Scalar,
    pub samples_per_pixel: u32,
    pub max_depth: u32,
    pub vfov_tan_half: Scalar,
    pub lookfrom: Point,
    pub lookat: Point,
    pub vup: Vector,
    pub defocus_tan_half: Scalar,
    pub focus_dist: Scalar,
    pub image_height: u32,
    pub center: Point,
    pub pixel_du: Vector,
    pub pixel_dv: Vector,
    pub pixel00_loc: Point,
    pub defocus_disk_u: Vector,
    pub defocus_disk_v: Vector,
}

/// A configuration the derivation accepts: moderate sizes and bounds, a
/// positive field of view, and distinct look-from and look-at points.
pub open spec fn cam_config_ok(c: Camera) -> bool {
    &&& 1 <= c.image_width <= 4096
    &&& SCALE as int / 4 <= c.aspect_ratio@ <= 4 * SCALE
    &&& 1 <= c.samples_per_pixel <= 65536
    &&& 0 < c.vfov_tan_half@ <= 4 * SCALE
    &&& bounded3(c.lookfrom@, 0x400_0000)
    &&& bounded3(c.lookat@, 0x400_0000)
    &&& bounded3(c.vup@, 0x400_0000)
    &&& -(4 * SCALE) <= c.defocus_tan_half@ <= 4 * SCALE
    &&& SCALE as int / 16 <= c.focus_dist@ <= 0x100_0000
    &&& 1 <= ls3(sub3(c.lookfrom@, c.lookat@))
}

/// The image height derived from width and aspect ratio, at least one.
pub open spec fn cam_height(c: Camera) -> int {
    let ih = tdiv(sdiv(c.image_width * (SCALE as int), c.aspect_ratio@), SCALE as int);
    if ih < 1 {
        1int
    } else {
        ih
    }
}

/// Twice the half-viewport height at the focus plane.
pub open spec fn cam_vh(c: Camera) -> int {
    2 * smul(c.vfov_tan_half@, c.focus_dist@)
}

/// The width-to-height ratio of the pixel grid.
pub open spec fn cam_ratio(c: Camera) -> int {
    sdiv(c.image_width * (SCALE as int), cam_height(c) * (SCALE as int))
}

/// The viewport width.
pub open spec fn cam_vw(c: Camera) -> int {
    smul(cam_vh(c), cam_ratio(c))
}

/// The view basis: `w` looks backward, `u` spans right, `v` spans up.
pub open spec fn cam_w_axis(c: Camera) -> (int, int, int) {
    norm3(sub3(c.lookfrom@, c.lookat@))
}

pub open spec fn cam_u0(c: Camera) -> (int, int, int) {
    cross3(c.vup@, cam_w_axis(c))
}

pub open spec fn cam_u_axis(c: Camera) -> (int, int, int) {
    norm3(cam_u0(c))
}

pub open spec fn cam_v_axis(c: Camera) -> (int, int, int) {
    cross3(cam_w_axis(c), cam_u_axis(c))
}

pub open spec fn cam_viewport_u(c: Camera) -> (int, int, int) {
    smul3(cam_u_axis(c), cam_vw(c))
}

pub open spec fn cam_viewport_v(c: Camera) -> (int, int, int) {
    smul3(neg3(cam_v_axis(c)), cam_vh(c))
}

pub open spec fn cam_du(c: Camera) -> (int, int, int) {
    div3(cam_viewport_u(c), c.image_width * (SCALE as int))
}

pub open spec fn cam_dv(c: Camera) -> (int, int, int) {
    div3(cam_viewport_v(c), cam_height(c) * (SCALE as int))
}

pub open spec fn cam_upper_left(c: Camera) -> (int, int, int) {
    sub3(
        sub3(
            sub3(c.lookfrom@, smul3(cam_w_axis(c), c.focus_dist@)),
            div3(cam_viewport_u(c), 2 * SCALE),
        ),
        div3(cam_viewport_v(c), 2 * SCALE),
    )
}

pub open spec fn cam_p00(c: Camera) -> (int, int, int) {
    add3(cam_upper_left(c), smul3(add3(cam_du(c), cam_dv(c)), 32768))
}

pub open spec fn cam_defocus_radius(c: Camera) -> int {
    smul(c.focus_dist@, c.defocus_tan_half@)
}

pub open spec fn cam_disk_u(c: Camera) -> (int, int, int) {
    smul3(cam_u_axis(c), cam_defocus_radius(c))
}

pub open spec fn cam_disk_v(c: Camera) -> (int, int, int) {
    smul3(cam_v_axis(c), cam_defocus_radius(c))
}

/// When the derivation succeeds: the right-axis cross product does not
/// vanish, and the derived grid values land within the ranges ray
/// generation accepts.
pub open spec fn cam_init_ok(c: Camera) -> bool {
    &&& 1 <= ls3(cam_u0(c))
    &&& bounded3(cam_du(c), SCALE as int)
    &&& bounded3(cam_dv(c), SCALE as int)
    &&& bounded3(cam_p00(c), 0x4000_0000)
}

impl Camera {
    /// The derived state ray generation relies on.
    pub open spec fn derived_ok(self) -> bool {
        &&& 1 <= self.image_width <= 4096
        &&& 1 <= self.image_height <= 16384
        &&& 1 <= self.samples_per_pixel <= 65536
        &&& bounded3(self.pixel_du@, SCALE as int)
        &&& bounded3(self.pixel_dv@, SCALE as int)
        &&& bounded3(self.pixel00_loc@, 0x4000_0000)
        &&& bounded3(self.center@, 0x4000_0000)
        &&& bounded3(self.defocus_disk_u@, 0x4000_0000)
        &&& bounded3(self.defocus_disk_v@, 0x4000_0000)
    }

    /// A camera with every field zero, to be configured before rendering.
    pub fn new() -> (r: Camera)
        ensures
            r.image_width == 0,
            r.aspect_ratio@ == 0,
            r.samples_per_pixel == 0,
            r.max_depth == 0,
            r.vfov_tan_half@ == 0,
            r.lookfrom@ == (0int, 0int, 0int),
            r.lookat@ == (0int, 0int, 0int),
            r.vup@ == (0int, 0int, 0int),
            r.defocus_tan_half@ == 0,
            r.focus_dist@ == 0,
    {
        let zero = Scalar { raw: 0 };
        let zv = Vec3 { x: zero, y: zero, z: zero };
        Camera {
            image_width: 0,
            aspect_ratio: zero,
            samples_per_pixel: 0,
            max_depth: 0,
            vfov_tan_half: zero,
            lookfrom: zv,
            lookat: zv,
            vup: zv,
            defocus_tan_half: zero,
            focus_dist: zero,
            image_height: 0,
            center: zv,
            pixel_du: zv,
            pixel_dv: zv,
            pixel00_loc: zv,
            defocus_disk_u: zv,
            defocus_disk_v: zv,
        }
    }

    /// Derives the view state from the configuration: image height, view
    /// basis, pixel grid, and defocus disk. Returns whether every derived
    /// value landed in range; the configuration fields are untouched.
    pub fn initialize(&mut self) -> (ok: bool)
        requires
            cam_config_ok(*old(self)),
        ensures
            final(self).image_width == old(self).image_width,
            final(self).aspect_ratio == old(self).aspect_ratio,
            final(self).samples_per_pixel == old(self).samples_per_pixel,
            final(self).max_depth == old(self).max_depth,
            final(self).vfov_tan_half == old(self).vfov_tan_half,
            final(self).lookfrom == old(self).lookfrom,
            final(self).lookat == old(self).lookat,
            final(self).vup == old(self).vup,
            final(self).defocus_tan_half == old(self).defocus_tan_half,
            final(self).focus_dist == old(self).focus_dist,
            ok == cam_init_ok(*old(self)),
            !ok ==> *final(self) == *old(self),
            ok ==> final(self).derived_ok(),
            ok ==> final(self).image_height as int == cam_height(*old(self)),
            ok ==> final(self).center == old(self).lookfrom,
            ok ==> final(self).pixel_du@ == cam_du(*old(self)),
            ok ==> final(self).pixel_dv@ == cam_dv(*old(self)),
            ok ==> final(self).pixel00_loc@ == cam_p00(*old(self)),
            ok ==> final(self).defocus_disk_u@ == cam_disk_u(*old(self)),
            ok ==> final(self).defocus_disk_v@ == cam_disk_v(*old(self)),
    {
        let ghost cfg = *old(self);
        let ws = Scalar { raw: (self.image_width as i64) * SCALE };
        proof {
            lemma_sdiv_bounded(ws@, self.aspect_ratio@, 0x1000_0000, SCALE as int / 4);
            assert(0x1000_0000 * (SCALE as int) == 0x4000_0000int * (SCALE as int / 4)) by (
            nonlinear_arith);
            lemma_tdiv_mul_cancel(0x4000_0000int, SCALE as int / 4);
        }
        let hs = ws.div(self.aspect_ratio);
        proof {
            assert(ws@ >= 0);
            assert(0 <= ws@ * (SCALE as int) <= 0x1000_0000 * (SCALE as int)) by (nonlinear_arith)
                requires
                    0 <= ws@ <= 0x1000_0000,
            ;
            lemma_tdiv_bound(ws@ * (SCALE as int), 0x1000_0000 * (SCALE as int),
                self.aspect_ratio@);
            assert(hs@ >= 0);
        }
        let ih64: u64 = (hs.raw as u64) / 65536;
        let image_height: u32 = if ih64 < 1 {
            1u32
        } else {
            ih64 as u32
        };
        proof {
            assert(image_height as int == cam_height(cfg));
            assert(1 <= image_height <= 16384);
        }
        let vhs0 = self.vfov_tan_half.mul_bounded_focus(self.focus_dist);
        let vh = Scalar { raw: 2 * vhs0.raw };
        let ihs = Scalar { raw: (image_height as i64) * SCALE };
        proof {
            lemma_sdiv_bounded(ws@, ihs@, 0x1000_0000, SCALE as int);
            lemma_tdiv_mul_cancel(0x1000_0000, SCALE as int);
        }
        let ratio = ws.div(ihs);
        proof {
            assert(0x800_0000 * 0x1000_0000 == 0x80_0000_0000int * (SCALE as int)) by (
            nonlinear_arith);
            lemma_tdiv_mul_cancel(0x80_0000_0000int, SCALE as int);
            lemma_smul_bounded(vh@, ratio@, 0x800_0000, 0x1000_0000);
        }
        let vw = vh.mul(ratio);
        let wsub = self.lookfrom.sub(self.lookat);
        proof {
            assert(3 * 0x800_0000int * 0x800_0000 <= 0x7fff_ffff_ffff_ffffint * 0x1_0000) by (
            nonlinear_arith);
            lemma_dot3_bounded(wsub@, wsub@, 0x800_0000, 0x800_0000);
        }
        let w_axis = wsub.normalize();
        proof {
            assert(2 * (0x400_0000int * (2 * SCALE)) == 0x1000_0000int * (SCALE as int)) by (
            nonlinear_arith);
            lemma_cross3_bounded(self.vup@, w_axis@, 0x400_0000, 2 * SCALE, 0x1000_0000);
            assert(3 * 0x1000_0000int * 0x1000_0000 <= 0x7fff_ffff_ffff_ffffint * 0x1_0000) by (
            nonlinear_arith);
            lemma_dot3_bounded(cam_u0(cfg), cam_u0(cfg), 0x1000_0000, 0x1000_0000);
        }
        let u0 = self.vup.cross(w_axis);
        let lsu0 = u0.length_squared();
        if lsu0.raw < 1 {
            return false;
        }
        let u_axis = u0.normalize();
        proof {
            assert(2 * ((2 * SCALE) * (2 * SCALE)) == (8 * SCALE) * (SCALE as int)) by (
            nonlinear_arith);
            lemma_cross3_bounded(w_axis@, u_axis@, 2 * SCALE, 2 * SCALE, 8 * SCALE);
        }
        let v_axis = w_axis.cross(u_axis);
        proof {
            assert((2 * SCALE) * 0x80_0000_0000int == 0x100_0000_0000int * (SCALE as int)) by (
            nonlinear_arith);
            lemma_smul3_bounded(u_axis@, vw@, 2 * SCALE, 0x80_0000_0000int, 0x100_0000_0000int);
        }
        let viewport_u = u_axis.mul(vw);
        let nv = v_axis.neg();
        proof {
            assert((8 * SCALE) * 0x800_0000int == 0x4000_0000int * (SCALE as int)) by (
            nonlinear_arith);
            lemma_smul3_bounded(nv@, vh@, 8 * SCALE, 0x800_0000, 0x4000_0000);
        }
        let viewport_v = nv.mul(vh);
        proof {
            lemma_div3_bounded(
                viewport_u@,
                ws@,
                0x100_0000_0000int,
                SCALE as int,
                0x100_0000_0000int,
            );
        }
        let pixel_du = viewport_u.div(ws);
        proof {
            lemma_div3_bounded(viewport_v@, ihs@, 0x4000_0000, SCALE as int, 0x4000_0000);
        }
        let pixel_dv = viewport_v.div(ihs);
        if !(bounded_comps(&pixel_du, SCALE) && bounded_comps(&pixel_dv, SCALE)) {
            return false;
        }
        proof {
            assert((2 * SCALE) * 0x100_0000int == 0x200_0000int * (SCALE as int)) by (
            nonlinear_arith);
            lemma_smul3_bounded(w_axis@, self.focus_dist@, 2 * SCALE, 0x100_0000, 0x200_0000);
        }
        let wfd = w_axis.mul(self.focus_dist);
        let two = Scalar { raw: 2 * SCALE };
        proof {
            assert(0x100_0000_0000int * (SCALE as int) <= 0x80_0000_0000int * (2 * SCALE)) by (
            nonlinear_arith);
            lemma_div3_bounded(
                viewport_u@,
                2 * SCALE,
                0x100_0000_0000int,
                2 * SCALE,
                0x80_0000_0000int,
            );
            assert(0x4000_0000int * (SCALE as int) <= 0x2000_0000int * (2 * SCALE)) by (
            nonlinear_arith);
            lemma_div3_bounded(viewport_v@, 2 * SCALE, 0x4000_0000, 2 * SCALE, 0x2000_0000);
        }
        let half_vu = viewport_u.div(two);
        let half_vv = viewport_v.div(two);
        let upper_left = self.lookfrom.sub(wfd).sub(half_vu).sub(half_vv);
        let dsum = pixel_du.add(pixel_dv);
        proof {
            assert((2 * SCALE) * 32768 == SCALE as int * (SCALE as int)) by (nonlinear_arith);
            lemma_smul3_bounded(dsum@, 32768, 2 * SCALE, 32768, SCALE as int);
        }
        let pixel00_loc = upper_left.add(dsum.mul(Scalar { raw: 32768 }));
        if !bounded_comps(&pixel00_loc, 0x4000_0000) {
            return false;
        }
        proof {
            assert(0x100_0000int * (4 * SCALE) == 0x400_0000int * (SCALE as int)) by (
            nonlinear_arith);
            lemma_tdiv_mul_cancel(0x400_0000int, SCALE as int);
            lemma_smul_bounded(self.focus_dist@, self.defocus_tan_half@, 0x100_0000, 4 * SCALE);
        }
        let defocus_radius = self.focus_dist.mul(self.defocus_tan_half);
        proof {
            assert((2 * SCALE) * 0x400_0000int == 0x800_0000int * (SCALE as int)) by (
            nonlinear_arith);
            lemma_smul3_bounded(u_axis@, defocus_radius@, 2 * SCALE, 0x400_0000, 0x800_0000);
            assert((8 * SCALE) * 0x400_0000int == 0x2000_0000int * (SCALE as int)) by (
            nonlinear_arith);
            lemma_smul3_bounded(v_axis@, defocus_radius@, 8 * SCALE, 0x400_0000, 0x2000_0000);
        }
        let defocus_disk_u = u_axis.mul(defocus_radius);
        let defocus_disk_v = v_axis.mul(defocus_radius);
        self.image_height = image_height;
        self.center = self.lookfrom;
        self.pixel_du = pixel_du;
        self.pixel_dv = pixel_dv;
        self.pixel00_loc = pixel00_loc;
        self.defocus_disk_u = defocus_disk_u;
        self.defocus_disk_v = defocus_disk_v;
        true
    }
}

/// Where a pixel's sample ray points: the pixel's grid cell, jittered by
/// the sub-pixel offsets.
pub open spec fn cam_pixel_sample(c: Camera, x: int, y: int, jx: int, jy: int) -> (int, int, int) {
    add3(
        add3(c.pixel00_loc@, smul3(c.pixel_du@, x * 65536 + jx)),
        smul3(c.pixel_dv@, y * 65536 + jy),
    )
}

/// Where a sample ray starts: the camera center, or a point of the
/// defocus disk when a positive defocus angle is set.
pub open spec fn cam_ray_origin(c: Camera, disk: (int, int, int)) -> (int, int, int) {
    if c.defocus_tan_half@ <= 0 {
        c.center@
    } else {
        add3(c.center@, add3(smul3(c.defocus_disk_u@, disk.0), smul3(c.defocus_disk_v@, disk.1)))
    }
}

/// One pixel line of the image: the rendering of some unit color; with
/// the depth budget exhausted it is the rendering of black.
pub open spec fn pixel_line_ok(s: Seq<char>, black_only: bool) -> bool {
    &&& exists|c: (int, int, int)| #[trigger] color_in_unit(c) && s == ppm_chars(c)
    &&& (black_only ==> s == ppm_chars((0int, 0int, 0int)))
}

/// A ray the sampler can produce for pixel `(x, y)`: the deterministic
/// generator's ray for some admissible jitter, defocus-disk point and
/// time.
pub open spec fn possible_sample_ray(c: Camera, x: int, y: int, r: Ray) -> bool {
    exists|jx: int, jy: int, dk: (int, int, int)|
        {
            &&& -32768 <= jx < 32768
            &&& -32768 <= jy < 32768
            &&& bounded3(dk, SCALE as int)
            &&& dk.2 == 0
            &&& ls3(dk) < SCALE
            &&& 0 <= r.time@ < SCALE
            &&& r.origin@ == cam_ray_origin(c, dk)
            &&& r.direction@ == #[trigger] sub3(
                cam_pixel_sample(c, x, y, jx, jy),
                cam_ray_origin(c, dk),
            )
        }
}

/// One step of a pixel's accumulation: a sample ray, the unit color it
/// contributed, and the sum before it. Its own predicate, so the
/// quantifier over the triple has a stable handle.
pub open spec fn sample_choice(r: Ray, col: (int, int, int), prev: (int, int, int)) -> bool {
    color_in_unit(col)
}

/// A value a pixel's sample sum can reach after `n` samples: zero to
/// start with, and then, step by step, the sum so far plus the
/// integrator's color for an admissible sample ray of the pixel.
pub open spec fn possible_sample_sum(
    c: Camera,
    x: int,
    y: int,
    es: Seq<Entity>,
    n: int,
    s: (int, int, int),
) -> bool
    decreases n,
{
    if n <= 0 {
        s == (0int, 0int, 0int)
    } else {
        exists|r: Ray, col: (int, int, int), prev: (int, int, int)|
            {
                &&& #[trigger] sample_choice(r, col, prev)
                &&& possible_sample_ray(c, x, y, r)
                &&& possible_ray_color(r, c.max_depth, es, col)
                &&& possible_sample_sum(c, x, y, es, n - 1, prev)
                &&& s == add3(prev, col)
            }
    }
}

/// One pixel's line: the quantization of the truncated componentwise
/// average of a possible sample sum over the pixel's whole sample budget.
pub open spec fn pixel_line_of(c: Camera, x: int, y: int, es: Seq<Entity>, line: Seq<char>) -> bool {
    exists|s: (int, int, int)|
        {
            &&& #[trigger] possible_sample_sum(c, x, y, es, c.samples_per_pixel as int, s)
            &&& line == ppm_chars(
                (
                    tdiv(s.0, c.samples_per_pixel as int),
                    tdiv(s.1, c.samples_per_pixel as int),
                    tdiv(s.2, c.samples_per_pixel as int),
                ),
            )
        }
}

impl Camera {
    /// The world point of a unit-disk sample on the defocus disk: the
    /// camera center displaced along the disk basis.
    pub fn defocus_disk_sample(&self, p: Vec3) -> (r: Point)
        requires
            self.derived_ok(),
            bounded3(p@, SCALE as int),
        ensures
            r@ == add3(
                self.center@,
                add3(smul3(self.defocus_disk_u@, p@.0), smul3(self.defocus_disk_v@, p@.1)),
            ),
            bounded3(r@, 0x1_0000_0000),
    {
        proof {
            lemma_smul3_bounded(self.defocus_disk_u@, p.x@, 0x4000_0000, SCALE as int, 0x4000_0000);
            lemma_smul3_bounded(self.defocus_disk_v@, p.y@, 0x4000_0000, SCALE as int, 0x4000_0000);
        }
        let du_s = self.defocus_disk_u.mul(p.x);
        let dv_s = self.defocus_disk_v.mul(p.y);
        self.center.add(du_s.add(dv_s))
    }

    /// The ray for pixel `(x, y)`, jittered by the given sub-pixel
    /// offsets, started from the given defocus-disk point when depth of
    /// field is on, and carrying the given time.
    pub fn get_ray(&self, x: u32, y: u32, x_offset: Scalar, y_offset: Scalar, time: Scalar,
        disk: Vec3) -> (r: Ray)
        requires
            self.derived_ok(),
            x < self.image_width,
            y < self.image_height,
            -32768 <= x_offset@ <= 32768,
            -32768 <= y_offset@ <= 32768,
            bounded3(disk@, SCALE as int),
        ensures
            r.time == time,
            r.origin@ == cam_ray_origin(*self, disk@),
            r.direction@ == sub3(
                cam_pixel_sample(*self, x as int, y as int, x_offset@, y_offset@),
                cam_ray_origin(*self, disk@),
            ),
            bounded3(r.direction@, DIR_BOUND as int),
    {
        let px = Scalar { raw: (x as i64) * SCALE + x_offset.raw };
        let py = Scalar { raw: (y as i64) * SCALE + y_offset.raw };
        proof {
            assert((SCALE as int) * 0x2000_0000int == 0x2000_0000int * (SCALE as int)) by (
            nonlinear_arith);
            lemma_smul3_bounded(self.pixel_du@, px@, SCALE as int, 0x2000_0000, 0x2000_0000);
            assert((SCALE as int) * 0x8000_0000int == 0x8000_0000int * (SCALE as int)) by (
            nonlinear_arith);
            lemma_smul3_bounded(self.pixel_dv@, py@, SCALE as int, 0x8000_0000, 0x8000_0000);
        }
        let a = self.pixel_du.mul(px);
        let b = self.pixel_dv.mul(py);
        let pixel_sample = self.pixel00_loc.add(a).add(b);
        let origin = if self.defocus_tan_half.raw <= 0 {
            self.center
        } else {
            self.defocus_disk_sample(disk)
        };
        let direction = pixel_sample.sub(origin);
        Ray::new(origin, direction, time)
    }

    /// One random sample ray for a pixel: jitter, lens point and time are
    /// drawn fresh, so two calls may differ; every outcome is the
    /// deterministic generator's ray for some admissible draw.
    pub fn sample_ray(&self, x: u32, y: u32) -> (r: Ray)
        requires
            self.derived_ok(),
            x < self.image_width,
            y < self.image_height,
        ensures
            bounded3(r.direction@, DIR_BOUND as int),
            0 <= r.time@ < SCALE,
            possible_sample_ray(*self, x as int, y as int, r),
    {
        let jx = Scalar { raw: random_raw(-32768, 32768) };
        let jy = Scalar { raw: random_raw(-32768, 32768) };
        let tm = Scalar { raw: random_raw(0, SCALE) };
        let disk = Vec3::random_in_unit_disk();
        let r = self.get_ray(x, y, jx, jy, tm, disk);
        proof {
            assert(r.direction@ == sub3(
                cam_pixel_sample(*self, x as int, y as int, jx@, jy@),
                cam_ray_origin(*self, disk@),
            ));
        }
        r
    }

    /// One pixel's line: the truncated componentwise average of
    /// `samples_per_pixel` integrator colors for fresh sample rays of the
    /// pixel, quantized. With a zero depth budget every sample is black,
    /// and so is the pixel.
    pub fn generate_pixel(&self, x: u32, y: u32, world: &World) -> (r: String)
        requires
            self.derived_ok(),
            x < self.image_width,
            y < self.image_height,
            world.wf(),
        ensures
            pixel_line_ok(r@, self.max_depth == 0),
            pixel_line_of(*self, x as int, y as int, world.entities@, r@),
    {
        let mut sum = Color::black();
        let mut s: u32 = 0;
        while s < self.samples_per_pixel
            invariant
                self.derived_ok(),
                x < self.image_width,
                y < self.image_height,
                world.wf(),
                s <= self.samples_per_pixel,
                0 <= sum@.0 <= (s as int) * 65536,
                0 <= sum@.1 <= (s as int) * 65536,
                0 <= sum@.2 <= (s as int) * 65536,
                self.max_depth == 0 ==> sum@ == (0int, 0int, 0int),
                possible_sample_sum(*self, x as int, y as int, world.entities@, s as int, sum@),
            decreases self.samples_per_pixel - s,
        {
            let ray = self.sample_ray(x, y);
            let c = ray_color(&ray, self.max_depth, world);
            let next = sum.add(c);
            proof {
                assert(sample_choice(ray, c@, sum@));
                assert(possible_sample_sum(
                    *self,
                    x as int,
                    y as int,
                    world.entities@,
                    (s + 1) as int,
                    next@,
                ));
            }
            sum = next;
            s = s + 1;
        }
        let spp = self.samples_per_pixel;
        proof {
            let n = spp as int;
            assert(65536 * n == n * 65536);
            lemma_tdiv_mul_cancel(65536, n);
            lemma_tdiv_mono(sum@.0, 65536 * n, n);
            lemma_tdiv_mono(sum@.1, 65536 * n, n);
            lemma_tdiv_mono(sum@.2, 65536 * n, n);
            lemma_tdiv_bound(sum@.0, 65536 * n, n);
            lemma_tdiv_bound(sum@.1, 65536 * n, n);
            lemma_tdiv_bound(sum@.2, 65536 * n, n);
        }
        let ax: u64 = (sum.x.raw as u64) / (spp as u64);
        let ay: u64 = (sum.y.raw as u64) / (spp as u64);
        let az: u64 = (sum.z.raw as u64) / (spp as u64);
        let avg = Vec3::new(
            Scalar { raw: ax as i64 },
            Scalar { raw: ay as i64 },
            Scalar { raw: az as i64 },
        );
        proof {
            assert(avg@.0 == tdiv(sum@.0, spp as int));
            assert(avg@.1 == tdiv(sum@.1, spp as int));
            assert(avg@.2 == tdiv(sum@.2, spp as int));
            assert(color_in_unit(avg@));
            if self.max_depth == 0 {
                assert(avg@ == (0int, 0int, 0int));
            }
            assert(possible_sample_sum(
                *self,
                x as int,
                y as int,
                world.entities@,
                self.samples_per_pixel as int,
                sum@,
            ));
        }
        avg.to_ppm()
    }

    /// One row of pixel lines, left to right: entry `j` is the line of
    /// pixel `(j, y)`.
    pub fn generate_row(&self, y: u32, world: &World) -> (r: Vec<String>)
        requires
            self.derived_ok(),
            y < self.image_height,
            world.wf(),
        ensures
            r@.len() == self.image_width,
            forall|j: int|
                0 <= j < r@.len() ==> pixel_line_ok(#[trigger] r@[j]@, self.max_depth == 0),
            forall|j: int|
                0 <= j < r@.len() ==> pixel_line_of(
                    *self,
                    j,
                    y as int,
                    world.entities@,
                    #[trigger] r@[j]@,
                ),
    {
        let mut row: Vec<String> = Vec::new();
        let mut x: u32 = 0;
        while x < self.image_width
            invariant
                self.derived_ok(),
                y < self.image_height,
                world.wf(),
                x <= self.image_width,
                row@.len() == x,
                forall|j: int|
                    0 <= j < row@.len() ==> pixel_line_ok(#[trigger] row@[j]@, self.max_depth
                        == 0),
                forall|j: int|
                    0 <= j < row@.len() ==> pixel_line_of(
                        *self,
                        j,
                        y as int,
                        world.entities@,
                        #[trigger] row@[j]@,
                    ),
            decreases self.image_width - x,
        {
            let line = self.generate_pixel(x, y, world);
            row.push(line);
            x = x + 1;
        }
        row
    }

    /// Renders the frame: derives the view state, then produces one line
    /// per pixel in row-major order, top row first, left to right within
    /// each row. Returns `None` where the configuration's derivation does
    /// not land in range.
    pub fn render(&mut self, world: &World) -> (r: Option<Vec<String>>)
        requires
            cam_config_ok(*old(self)),
            world.wf(),
        ensures
            r is Some <==> cam_init_ok(*old(self)),
            final(self).image_width == old(self).image_width,
            final(self).aspect_ratio == old(self).aspect_ratio,
            final(self).samples_per_pixel == old(self).samples_per_pixel,
            final(self).max_depth == old(self).max_depth,
            final(self).vfov_tan_half == old(self).vfov_tan_half,
            final(self).lookfrom == old(self).lookfrom,
            final(self).lookat == old(self).lookat,
            final(self).vup == old(self).vup,
            final(self).defocus_tan_half == old(self).defocus_tan_half,
            final(self).focus_dist == old(self).focus_dist,
            r is None ==> *final(self) == *old(self),
            r is Some ==> ({
                &&& final(self).derived_ok()
                &&& final(self).image_height as int == cam_height(*old(self))
                &&& final(self).center == old(self).lookfrom
                &&& final(self).pixel_du@ == cam_du(*old(self))
                &&& final(self).pixel_dv@ == cam_dv(*old(self))
                &&& final(self).pixel00_loc@ == cam_p00(*old(self))
                &&& final(self).defocus_disk_u@ == cam_disk_u(*old(self))
                &&& final(self).defocus_disk_v@ == cam_disk_v(*old(self))
            }),
            match r {
                Some(v) => {
                    &&& v@.len() == cam_height(*old(self)) * old(self).image_width
                    &&& forall|j: int|
                        0 <= j < v@.len() ==> pixel_line_ok(
                            #[trigger] v@[j]@,
                            old(self).max_depth == 0,
                        )
                    &&& forall|j: int|
                        0 <= j < v@.len() ==> pixel_line_of(
                            *final(self),
                            j % (old(self).image_width as int),
                            j / (old(self).image_width as int),
                            world.entities@,
                            #[trigger] v@[j]@,
                        )
                },
                None => true,
            },
    {
        let ok = self.initialize();
        if !ok {
            return None;
        }
        let ghost me = *self;
        let ghost w = me.image_width as int;
        let mut out: Vec<String> = Vec::new();
        let mut y: u32 = 0;
        while y < self.image_height
            invariant
                *self == me,
                me.derived_ok(),
                world.wf(),
                w == me.image_width as int,
                y <= me.image_height,
                out@.len() == (y as int) * w,
                forall|j: int|
                    0 <= j < out@.len() ==> pixel_line_ok(#[trigger] out@[j]@, me.max_depth == 0),
                forall|j: int|
                    0 <= j < out@.len() ==> pixel_line_of(
                        me,
                        j % w,
                        j / w,
                        world.entities@,
                        #[trigger] out@[j]@,
                    ),
            decreases self.image_height - y,
        {
            let mut row = self.generate_row(y, world);
            let ghost len0 = out@.len() as int;
            let ghost row0 = row@;
            proof {
                assert(((y as int) + 1) * w == (y as int) * w + w) by (nonlinear_arith);
            }
            out.append(&mut row);
            proof {
                assert forall|j: int| 0 <= j < out@.len() implies pixel_line_of(
                    me,
                    j % w,
                    j / w,
                    world.entities@,
                    #[trigger] out@[j]@,
                ) by {
                    if j >= len0 {
                        let k = j - len0;
                        assert(out@[j]@ == row0[k]@);
                        assert(j == (y as int) * w + k);
                        vstd::arithmetic::div_mod::lemma_fundamental_div_mod_converse(
                            j,
                            w,
                            y as int,
                            k,
                        );
                        assert(pixel_line_of(me, k, y as int, world.entities@, row0[k]@));
                    }
                }
            }
            y = y + 1;
        }
        Some(out)
    }
}

/// Whether every component's raw value lies within `b` of zero.
fn bounded_comps(v: &Vec3, b: i64) -> (r: bool)
    requires
        b >= 0,
    ensures
        r == bounded3(v@, b as int),
{
    -b <= v.x.raw && v.x.raw <= b && -b <= v.y.raw && v.y.raw <= b && -b <= v.z.raw && v.z.raw <= b
}

impl Scalar {
    /// The product of a tangent in the quarter-to-four range with a focus
    /// distance: a helper of the camera derivation with its bound built
    /// in.
    fn mul_bounded_focus(self, fd: Scalar) -> (r: Scalar)
        requires
            -(4 * SCALE) <= self@ <= 4 * SCALE,
            0 <= fd@ <= 0x100_0000,
        ensures
            r@ == smul(self@, fd@),
            -0x400_0000 <= r@ <= 0x400_0000,
    {
        proof {
            assert((4 * SCALE) * 0x100_0000int == 0x400_0000int * (SCALE as int)) by (
            nonlinear_arith);
            lemma_tdiv_mul_cancel(0x400_0000int, SCALE as int);
            lemma_smul_bounded(self@, fd@, 4 * SCALE, 0x100_0000);
        }
        self.mul(fd)
    }
}

} // verus!
