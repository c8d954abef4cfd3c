//! Geometric primitives: spheres, stationary or moving linearly in time.
//!
//! The intersection solves the quadratic the specification gives:
//! `a = |D|^2`, `h = D . (C - O)`, `c = |C - O|^2 - r^2`, discriminant
//! `h^2 - a c`; a negative discriminant is a miss, otherwise the nearer
//! root is taken, then the farther one, each against the allowed interval,
//! inclusively. Every arithmetic step is checked; a step that leaves
//! machine range is a miss, and the spec functions below say exactly when
//! that happens.

use crate::hit_record::HitRecord;
use crate::interval::Interval;
use crate::material::{material_wf, Material};
use crate::ray::{at3, at_fits3, Ray};
use crate::scalar::{fits_raw, isqrt_spec, lemma_isqrt, sdiv, smul, tdiv, Scalar, SCALE};
use crate::vec3::{bounded3, div3, dot3, dot_fits3, fits3, ls3, sub3, Point, Vec3, Vector};
use vstd::prelude::*;

verus! {

/// The last stage of a sphere hit: the surface point and the outward
/// normal at parameter `t`, or `None` where a step leaves machine range or
/// the normal is not near unit length.
pub open spec fn sphere_hit_at(
    ro: (int, int, int),
    rd: (int, int, int),
    cc: (int, int, int),
    rr: int,
    t: int,
) -> Option<(int, (int, int, int), (int, int, int))> {
    if !at_fits3(ro, rd, t) {
        None
    } else {
        let p = at3(ro, rd, t);
        if !fits3(sub3(p, cc)) || !fits3(div3(sub3(p, cc), rr)) {
            None
        } else {
            let nrm = div3(sub3(p, cc), rr);
            if !bounded3(nrm, 2 * SCALE) || !dot_fits3(rd, nrm) {
                None
            } else {
                Some((t, p, nrm))
            }
        }
    }
}

/// Root selection: the nearer root where the interval admits it, else the
/// farther one, else a miss. The interval is inclusive at both bounds.
pub open spec fn sphere_hit_root(
    ro: (int, int, int),
    rd: (int, int, int),
    cc: (int, int, int),
    rr: int,
    lo: int,
    hi: int,
    a: int,
    h: int,
    sq: int,
) -> Option<(int, (int, int, int), (int, int, int))> {
    if !fits_raw(h - sq) || !fits_raw(sdiv(h - sq, a)) {
        None
    } else {
        let r1 = sdiv(h - sq, a);
        if lo <= r1 <= hi {
            sphere_hit_at(ro, rd, cc, rr, r1)
        } else {
            if !fits_raw(h + sq) || !fits_raw(sdiv(h + sq, a)) {
                None
            } else {
                let r2 = sdiv(h + sq, a);
                if lo <= r2 <= hi {
                    sphere_hit_at(ro, rd, cc, rr, r2)
                } else {
                    None
                }
            }
        }
    }
}

/// The full sphere intersection: parameter, surface point and outward
/// normal of the nearest admissible root, or `None` on a miss, a
/// degenerate direction, or an arithmetic step out of machine range.
pub open spec fn sphere_hit(
    ro: (int, int, int),
    rd: (int, int, int),
    tm: int,
    co: (int, int, int),
    cd: (int, int, int),
    rr: int,
    lo: int,
    hi: int,
) -> Option<(int, (int, int, int), (int, int, int))> {
    if !at_fits3(co, cd, tm) {
        None
    } else {
        let cc = at3(co, cd, tm);
        if !fits3(sub3(cc, ro)) {
            None
        } else {
            let oc = sub3(cc, ro);
            if !dot_fits3(rd, rd) {
                None
            } else {
                let a = ls3(rd);
                if a == 0 {
                    None
                } else {
                    if !dot_fits3(rd, oc) || !dot_fits3(oc, oc) || !fits_raw(smul(rr, rr))
                        || !fits_raw(ls3(oc) - smul(rr, rr)) {
                        None
                    } else {
                        let h = dot3(rd, oc);
                        let c = ls3(oc) - smul(rr, rr);
                        if !fits_raw(smul(h, h)) || !fits_raw(smul(a, c)) || !fits_raw(
                            smul(h, h) - smul(a, c),
                        ) {
                            None
                        } else {
                            let disc = smul(h, h) - smul(a, c);
                            if disc < 0 {
                                None
                            } else {
                                sphere_hit_root(
                                    ro,
                                    rd,
                                    cc,
                                    rr,
                                    lo,
                                    hi,
                                    a,
                                    h,
                                    isqrt_spec(disc * SCALE),
                                )
                            }
                        }
                    }
                }
            }
        }
    }
}

/// What an intersection promises of the returned record, relative to the
/// sphere-hit tuple of the entity's geometry.
pub open spec fn hit_matches(
    r: Option<HitRecord>,
    s: Option<(int, (int, int, int), (int, int, int))>,
    rd: (int, int, int),
    material: Material,
) -> bool {
    match r {
        Some(rec) => {
            &&& s is Some
            &&& rec.t@ == s->Some_0.0
            &&& rec.p@ == s->Some_0.1
            &&& rec.material == material
            &&& rec.front_face == (dot3(rd, s->Some_0.2) < 0)
            &&& rec.normal@ == (if dot3(rd, s->Some_0.2) < 0 {
                s->Some_0.2
            } else {
                crate::vec3::neg3(s->Some_0.2)
            })
            &&& rec.wf()
            &&& dot3(rec.normal@, rd) <= 0
        },
        None => s is None,
    }
}

/// Truncated division distributes over a sum of non-negative parts at
/// least as well as termwise: the floor of the sum dominates the sum of
/// the floors.
proof fn lemma_tdiv_superadd(x: int, y: int, d: int)
    requires
        0 <= x,
        0 <= y,
        0 < d,
    ensures
        tdiv(x, d) + tdiv(y, d) <= tdiv(x + y, d),
{
    let qx = x / d;
    let qy = y / d;
    vstd::arithmetic::div_mod::lemma_fundamental_div_mod(x, d);
    vstd::arithmetic::div_mod::lemma_mod_bound(x, d);
    vstd::arithmetic::div_mod::lemma_fundamental_div_mod(y, d);
    vstd::arithmetic::div_mod::lemma_mod_bound(y, d);
    assert(d * (qx + qy) == d * qx + d * qy && d * (qx + qy) == (qx + qy) * d) by (
    nonlinear_arith);
    assert(x + y >= d * (qx + qy));
    crate::scalar::lemma_tdiv_mul_cancel(qx + qy, d);
    crate::vec3::lemma_tdiv_mono((qx + qy) * d, x + y, d);
    assert(qx >= 0 && qy >= 0) by {
        crate::vec3::lemma_tdiv_bound(x, x, d);
        crate::vec3::lemma_tdiv_bound(y, y, d);
    }
}

/// The quantities the through-center scenario produces, step for step:
/// for a unit ray along the negative third axis from the origin, and a
/// sphere centered on that axis at raw distance `d` with a radius whose
/// square is exact at the working precision, the discriminant is the
/// squared radius and the roots are `d - r` and `d + r` exactly.
proof fn lemma_center_quantities(d: int, r: int)
    requires
        0 < r <= 0x100_0000,
        r < d <= 0x100_0000,
        (r * r) % (SCALE as int) == 0,
    ensures
        ({
            let s = SCALE as int;
            let rd = (0int, 0int, -s);
            let oc = (0int, 0int, -d);
            &&& ls3(rd) == s
            &&& dot3(rd, oc) == d
            &&& ls3(oc) == tdiv(d * d, s)
            &&& smul(r, r) == (r * r) / s
            &&& smul(d, d) == tdiv(d * d, s)
            &&& smul(s, tdiv(d * d, s) - (r * r) / s) == tdiv(d * d, s) - (r * r) / s
            &&& isqrt_spec(((r * r) / s) * s) == r
            &&& sdiv(d - r, s) == d - r
            &&& sdiv(d + r, s) == d + r
            &&& 0 <= (r * r) / s
        }),
{
    let s = SCALE as int;
    let rd = (0int, 0int, -s);
    let oc = (0int, 0int, -d);
    assert(0int * 0 == 0 && (-s) * (-s) == s * s && (-s) * (-d) == s * d && (-d) * (-d) == d
        * d) by (nonlinear_arith);
    assert(s * s == s * s);
    crate::scalar::lemma_tdiv_mul_cancel(s, s);
    assert(ls3(rd) == tdiv(s * s, s));
    assert(s * d == d * s) by (nonlinear_arith);
    crate::scalar::lemma_tdiv_mul_cancel(d, s);
    assert(dot3(rd, oc) == tdiv(s * d, s));
    assert(0 <= r * r && 0 <= d * d) by (nonlinear_arith);
    vstd::arithmetic::div_mod::lemma_fundamental_div_mod(r * r, s);
    assert(r * r == s * ((r * r) / s));
    let q = (r * r) / s;
    crate::vec3::lemma_tdiv_bound(r * r, r * r, s);
    assert(smul(r, r) == q);
    let c = tdiv(d * d, s) - q;
    assert(s * c == c * s) by (nonlinear_arith);
    crate::scalar::lemma_tdiv_mul_cancel(c, s);
    assert(smul(s, c) == tdiv(s * c, s));
    assert(q * s == s * q) by (nonlinear_arith);
    assert(q * s == r * r);
    assert(r * r < (r + 1) * (r + 1)) by (nonlinear_arith)
        requires
            r > 0,
    ;
    crate::scalar::lemma_isqrt_unique(r * r, r);
    assert((d - r) * s == s * (d - r) && (d + r) * s == s * (d + r)) by (nonlinear_arith);
    crate::scalar::lemma_tdiv_mul_cancel(d - r, s);
    crate::scalar::lemma_tdiv_mul_cancel(d + r, s);
}

/// The surface values at a root of the through-center scenario: the hit
/// point lies on the axis and the outward normal is the unit axis vector,
/// toward the ray for the near root and away for the far one.
proof fn lemma_center_surface(d: int, r: int, t: int, back: bool)
    requires
        0 < r <= 0x100_0000,
        r < d <= 0x100_0000,
        t == if back {
            d + r
        } else {
            d - r
        },
    ensures
        sphere_hit_at((0int, 0int, 0int), (0int, 0int, -(SCALE as int)), (0int, 0int, -d), r, t)
            == Some(
            (
                t,
                (0int, 0int, -t),
                (
                    0int,
                    0int,
                    if back {
                        -(SCALE as int)
                    } else {
                        SCALE as int
                    },
                ),
            ),
        ),
{
    let s = SCALE as int;
    assert((-s) * t == -(t * s) && t * s == s * t && 0int * t == 0) by (nonlinear_arith);
    crate::scalar::lemma_tdiv_mul_cancel(t, s);
    crate::vec3::lemma_tdiv_neg(t * s, s);
    assert(smul(-s, t) == -t);
    assert(0int * 0 == 0) by (nonlinear_arith);
    assert(tdiv(0, s) == 0);
    assert(smul(0, t) == 0);
    let p = at3((0int, 0int, 0int), (0int, 0int, -s), t);
    assert(p == (0int, 0int, -t));
    let pc = sub3(p, (0int, 0int, -d));
    assert(pc == (0int, 0int, d - t));
    assert(0int * s == 0) by (nonlinear_arith);
    assert(sdiv(0, r) == tdiv(0 * s, r));
    crate::scalar::lemma_tdiv_mul_cancel(0, r);
    if back {
        assert(d - t == -r);
        assert((-r) * s == (-s) * r) by (nonlinear_arith);
        crate::scalar::lemma_tdiv_mul_cancel(-s, r);
        assert(sdiv(-r, r) == -s);
    } else {
        assert(d - t == r);
        assert(r * s == s * r) by (nonlinear_arith);
        crate::scalar::lemma_tdiv_mul_cancel(s, r);
        assert(sdiv(r, r) == s);
    }
    let nrm = div3(pc, r);
    assert((-s) * nrm.2 == -(s * nrm.2) && -(s * s) <= s * nrm.2 <= s * s && 0int * nrm.0 == 0
        && 0int * nrm.1 == 0) by (nonlinear_arith)
        requires
            -s <= nrm.2 <= s,
            nrm.0 == 0 && nrm.1 == 0,
            s == SCALE as int,
    ;
    assert((-s) * (-s) == s * s && (-s) * s == -(s * s) && s * s == s * s) by (nonlinear_arith);
    crate::scalar::lemma_tdiv_mul_cancel(s, s);
    crate::vec3::lemma_tdiv_neg(s * s, s);
    if back {
        assert(dot3((0int, 0int, -s), nrm) == tdiv(s * s, s));
    } else {
        assert(dot3((0int, 0int, -s), nrm) == tdiv(-(s * s), s));
    }
}

/// A ray through a sphere's exact center, starting outside at raw
/// distance `d`, enters at parameter `d - r` where the interval admits
/// it, and exits at `d + r` where the interval admits only the far root.
/// The radius's square must be exact at the working precision, as a
/// half-unit or whole-unit radius is.
pub proof fn lemma_sphere_through_center(d: int, r: int, lo: int, hi: int)
    requires
        0 < r <= 0x100_0000,
        r < d <= 0x100_0000,
        (r * r) % (SCALE as int) == 0,
        0 <= lo <= hi,
        lo <= d + r,
    ensures
        ({
            let s = sphere_hit(
                (0int, 0int, 0int),
                (0int, 0int, -(SCALE as int)),
                0,
                (0int, 0int, -d),
                (0int, 0int, 0int),
                r,
                lo,
                hi,
            );
            &&& (lo <= d - r && d - r <= hi ==> s == Some(
                (d - r, (0int, 0int, -(d - r)), (0int, 0int, SCALE as int)),
            ))
            &&& (d - r < lo && d + r <= hi ==> s == Some(
                (d + r, (0int, 0int, -(d + r)), (0int, 0int, -(SCALE as int))),
            ))
        }),
{
    let s = SCALE as int;
    lemma_center_quantities(d, r);
    assert(0int * 0 == 0 && 0int * (-d) == 0 && (-s) * (-s) == s * s && (-s) * (-d) == s * d && (
    -d) * (-d) == d * d && 0 <= s * d <= 0x1_0000_0000_0000int && 0 <= r * r
        <= 0x1_0000_0000_0000int && 0 <= d * d <= 0x1_0000_0000_0000int && 0 <= s * s
        <= 0x1_0000_0000_0000int) by (nonlinear_arith)
        requires
            0 < r <= 0x100_0000,
            r < d <= 0x100_0000,
            s == 65536,
    ;
    assert(tdiv(0, s) == 0);
    assert(smul(0, 0) == 0);
    let ro = (0int, 0int, 0int);
    let rd = (0int, 0int, -s);
    let co = (0int, 0int, -d);
    let cd = (0int, 0int, 0int);
    assert(at_fits3(co, cd, 0));
    assert(at3(co, cd, 0) == co);
    let oc = sub3(co, ro);
    assert(oc == (0int, 0int, -d));
    assert(dot_fits3(rd, rd));
    assert(ls3(rd) == s);
    assert(dot_fits3(rd, oc));
    assert(dot3(rd, oc) == d);
    crate::vec3::lemma_tdiv_bound(d * d, 0x1_0000_0000_0000int, s);
    crate::vec3::lemma_tdiv_bound(r * r, 0x1_0000_0000_0000int, s);
    assert(dot_fits3(oc, oc));
    let q = (r * r) / s;
    assert(smul(r, r) == q && fits_raw(smul(r, r)));
    assert(ls3(oc) == tdiv(d * d, s));
    let c = tdiv(d * d, s) - q;
    assert(fits_raw(ls3(oc) - smul(r, r)));
    assert(smul(d, d) == tdiv(d * d, s) && fits_raw(smul(d, d)));
    assert(smul(s, c) == c && fits_raw(smul(s, c)));
    let disc = smul(d, d) - smul(s, c);
    assert(disc == q && fits_raw(disc) && disc >= 0);
    assert(isqrt_spec(disc * SCALE) == r);
    assert(fits_raw(d - r) && sdiv(d - r, s) == d - r && fits_raw(sdiv(d - r, s)));
    assert(fits_raw(d + r) && sdiv(d + r, s) == d + r && fits_raw(sdiv(d + r, s)));
    if lo <= d - r && d - r <= hi {
        lemma_center_surface(d, r, d - r, false);
    } else if d - r < lo && d + r <= hi {
        lemma_center_surface(d, r, d + r, true);
    }
}

/// A ray whose perpendicular offset from the center exceeds the radius by
/// at least a working-precision step misses the sphere: the discriminant
/// is negative.
pub proof fn lemma_sphere_miss(d: int, r: int, b: int, lo: int, hi: int)
    requires
        0 < r <= 0x100_0000,
        0 < d <= 0x100_0000,
        0 < b <= 0x100_0000,
        (r * r) % (SCALE as int) == 0,
        b * b >= r * r + SCALE,
    ensures
        sphere_hit(
            (0int, 0int, 0int),
            (0int, 0int, -(SCALE as int)),
            0,
            (0int, b, -d),
            (0int, 0int, 0int),
            r,
            lo,
            hi,
        ) is None,
{
    let s = SCALE as int;
    let rd = (0int, 0int, -s);
    let oc = (0int, b, -d);
    assert(0int * 0 == 0) by (nonlinear_arith);
    assert(tdiv(0, s) == 0);
    assert(smul(0, 0) == 0);
    assert(at3((0int, b, -d), (0int, 0int, 0int), 0) == (0int, b, -d));
    assert((-s) * (-s) == s * s && (-s) * (-d) == s * d && 0int * b == 0 && (-d) * (-d) == d
        * d) by (nonlinear_arith);
    crate::scalar::lemma_tdiv_mul_cancel(s, s);
    assert(ls3(rd) == tdiv(s * s, s));
    assert(s * d == d * s) by (nonlinear_arith);
    crate::scalar::lemma_tdiv_mul_cancel(d, s);
    assert(dot3(rd, oc) == tdiv(s * d, s));
    assert(ls3(oc) == tdiv(b * b + d * d, s));
    assert(0 <= b * b && 0 <= d * d && 0 <= r * r && b * b <= 0x100_0000 * 0x100_0000int && d * d
        <= 0x100_0000 * 0x100_0000int && r * r <= 0x100_0000 * 0x100_0000int) by (nonlinear_arith)
        requires
            0 < b <= 0x100_0000,
            0 < d <= 0x100_0000,
            0 < r <= 0x100_0000,
    ;
    lemma_tdiv_superadd(b * b, d * d, s);
    crate::vec3::lemma_tdiv_bound(b * b, 0x100_0000 * 0x100_0000int, s);
    crate::vec3::lemma_tdiv_bound(d * d, 0x100_0000 * 0x100_0000int, s);
    crate::vec3::lemma_tdiv_bound(b * b + d * d, 2 * (0x100_0000 * 0x100_0000int), s);
    vstd::arithmetic::div_mod::lemma_fundamental_div_mod(r * r, s);
    let q = (r * r) / s;
    crate::vec3::lemma_tdiv_bound(r * r, r * r, s);
    assert(smul(r, r) == q);
    assert(smul(d, d) == tdiv(d * d, s));
    let c = tdiv(b * b + d * d, s) - q;
    assert(s * c == c * s) by (nonlinear_arith);
    crate::scalar::lemma_tdiv_mul_cancel(c, s);
    assert(smul(s, c) == c);
    assert(tdiv(b * b, s) >= q + 1) by {
        assert(r * r + s == s * (q + 1)) by (nonlinear_arith)
            requires
                r * r == s * q,
        ;
        assert(s * (q + 1) == (q + 1) * s) by (nonlinear_arith);
        crate::scalar::lemma_tdiv_mul_cancel(q + 1, s);
        crate::vec3::lemma_tdiv_mono(r * r + s, b * b, s);
    }
    assert(smul(d, d) - smul(s, c) < 0);
}

/// A ray whose perpendicular offset from the center equals the radius
/// exactly grazes the sphere: the discriminant is exactly zero, both
/// roots coincide at the center's depth, and the hit stands or falls with
/// the interval admitting that single root.
pub proof fn lemma_sphere_tangent(d: int, r: int, lo: int, hi: int)
    requires
        0 < r <= 0x100_0000,
        0 < d <= 0x100_0000,
        (r * r) % (SCALE as int) == 0,
    ensures
        ({
            let s = sphere_hit(
                (0int, 0int, 0int),
                (0int, 0int, -(SCALE as int)),
                0,
                (0int, r, -d),
                (0int, 0int, 0int),
                r,
                lo,
                hi,
            );
            &&& (lo <= d <= hi ==> s == Some(
                (d, (0int, 0int, -d), (0int, -(SCALE as int), 0int)),
            ))
            &&& (!(lo <= d <= hi) ==> s is None)
        }),
{
    let s = SCALE as int;
    let rd = (0int, 0int, -s);
    let oc = (0int, r, -d);
    assert(0int * 0 == 0 && 0int * r == 0 && 0int * (-d) == 0 && (-s) * (-s) == s * s && (-s) * (
    -d) == s * d && (-d) * (-d) == d * d && 0 <= s * d <= 0x1_0000_0000_0000int && 0 <= r * r
        <= 0x1_0000_0000_0000int && 0 <= d * d <= 0x1_0000_0000_0000int && 0 <= s * s
        <= 0x1_0000_0000_0000int) by (nonlinear_arith)
        requires
            0 < r <= 0x100_0000,
            0 < d <= 0x100_0000,
            s == 65536,
    ;
    assert(tdiv(0, s) == 0);
    assert(smul(0, 0) == 0);
    assert(at3((0int, r, -d), (0int, 0int, 0int), 0) == (0int, r, -d));
    assert(s * s == s * s);
    crate::scalar::lemma_tdiv_mul_cancel(s, s);
    assert(ls3(rd) == tdiv(s * s, s));
    assert(dot_fits3(rd, rd));
    assert(s * d == d * s) by (nonlinear_arith);
    crate::scalar::lemma_tdiv_mul_cancel(d, s);
    assert(dot3(rd, oc) == tdiv(s * d, s));
    assert(dot_fits3(rd, oc));
    crate::vec3::lemma_tdiv_bound(d * d, 0x1_0000_0000_0000int, s);
    crate::vec3::lemma_tdiv_bound(r * r, 0x1_0000_0000_0000int, s);
    vstd::arithmetic::div_mod::lemma_fundamental_div_mod(r * r, s);
    let q = (r * r) / s;
    assert(smul(r, r) == q && fits_raw(smul(r, r)));
    vstd::arithmetic::div_mod::lemma_fundamental_div_mod(d * d, s);
    vstd::arithmetic::div_mod::lemma_mod_bound(d * d, s);
    let qd = (d * d) / s;
    assert(r * r + d * d == s * (q + qd) + (d * d) % s) by (nonlinear_arith)
        requires
            r * r == s * q,
            d * d == s * qd + (d * d) % s,
    ;
    vstd::arithmetic::div_mod::lemma_div_multiples_vanish_fancy(q + qd, (d * d) % s, s);
    assert(ls3(oc) == tdiv(r * r + d * d, s));
    assert(ls3(oc) == q + qd);
    assert(dot_fits3(oc, oc));
    let c = ls3(oc) - q;
    assert(c == tdiv(d * d, s));
    assert(s * c == c * s) by (nonlinear_arith);
    crate::scalar::lemma_tdiv_mul_cancel(c, s);
    assert(smul(s, c) == c && fits_raw(smul(s, c)));
    assert(smul(d, d) == tdiv(d * d, s) && fits_raw(smul(d, d)));
    let disc = smul(d, d) - smul(s, c);
    assert(disc == 0);
    assert(isqrt_spec(disc * SCALE) == 0) by {
        assert(disc * SCALE == 0int * (SCALE as int)) by (nonlinear_arith)
            requires
                disc == 0,
        ;
        assert(0int * (SCALE as int) == 0) by (nonlinear_arith);
    }
    assert((d - 0) * s == s * d) by (nonlinear_arith);
    crate::scalar::lemma_tdiv_mul_cancel(d - 0, s);
    assert(sdiv(d - 0, s) == d && fits_raw(sdiv(d - 0, s)));
    assert(sdiv(d + 0, s) == d && fits_raw(sdiv(d + 0, s)));
    if lo <= d <= hi {
        assert((-s) * d == -(d * s) && d * s == s * d && 0int * d == 0) by (nonlinear_arith);
        crate::scalar::lemma_tdiv_mul_cancel(d, s);
        crate::vec3::lemma_tdiv_neg(d * s, s);
        assert(smul(-s, d) == -d);
        assert(smul(0, d) == 0);
        let p = at3((0int, 0int, 0int), rd, d);
        assert(p == (0int, 0int, -d));
        let pc = sub3(p, (0int, r, -d));
        assert(pc == (0int, -r, 0int));
        assert(0int * s == 0 && (-r) * s == (-s) * r) by (nonlinear_arith);
        crate::scalar::lemma_tdiv_mul_cancel(0, r);
        crate::scalar::lemma_tdiv_mul_cancel(-s, r);
        let nrm = div3(pc, r);
        assert(nrm == (0int, -(s as int), 0int));
        assert(0int * 0 == 0 && 0int * (-s) == 0 && (-s) * 0int == 0) by (nonlinear_arith);
        assert(dot3(rd, nrm) == tdiv(0, s));
        assert(dot_fits3(rd, nrm));
    }
}

/// Narrowing the upper bound onto a successful hit keeps the hit: every
/// quantity but the interval tests is independent of the bounds, the
/// nearer root stays admitted when it was, and a nearer root rejected
/// below the lower bound stays rejected.
pub proof fn lemma_sphere_hit_narrow(
    ro: (int, int, int),
    rd: (int, int, int),
    tm: int,
    co: (int, int, int),
    cd: (int, int, int),
    rr: int,
    lo: int,
    hi: int,
    closest: int,
)
    requires
        sphere_hit(ro, rd, tm, co, cd, rr, lo, hi) is Some,
        lo <= closest <= hi,
        sphere_hit(ro, rd, tm, co, cd, rr, lo, hi)->Some_0.0 <= closest,
    ensures
        sphere_hit(ro, rd, tm, co, cd, rr, lo, closest) == sphere_hit(
            ro,
            rd,
            tm,
            co,
            cd,
            rr,
            lo,
            hi,
        ),
{
    let cc = at3(co, cd, tm);
    let oc = sub3(cc, ro);
    let a = ls3(rd);
    crate::vec3::lemma_ls3_nonneg(rd);
    let h = dot3(rd, oc);
    let c = ls3(oc) - smul(rr, rr);
    let disc = smul(h, h) - smul(a, c);
    assert(0 <= disc * SCALE) by (nonlinear_arith)
        requires
            disc >= 0,
            SCALE as int > 0,
    ;
    lemma_isqrt(disc * SCALE);
    let sq = isqrt_spec(disc * SCALE);
    let r1 = sdiv(h - sq, a);
    let r2 = sdiv(h + sq, a);
    assert((h - sq) * SCALE <= (h + sq) * SCALE) by (nonlinear_arith)
        requires
            sq >= 0,
            SCALE as int > 0,
    ;
    crate::vec3::lemma_tdiv_mono((h - sq) * SCALE, (h + sq) * SCALE, a);
    assert(r1 <= r2);
    if lo <= r1 <= hi {
        assert(lo <= r1 <= closest);
    } else {
        assert(r1 < lo || r1 > hi);
        if lo <= r2 <= hi {
            assert(r1 < lo);
        }
    }
}

/// A successful sphere hit lies within the interval it was asked for:
/// both roots are admitted only through the interval test.
pub proof fn lemma_sphere_hit_in_interval(
    ro: (int, int, int),
    rd: (int, int, int),
    tm: int,
    co: (int, int, int),
    cd: (int, int, int),
    rr: int,
    lo: int,
    hi: int,
)
    requires
        sphere_hit(ro, rd, tm, co, cd, rr, lo, hi) is Some,
    ensures
        lo <= sphere_hit(ro, rd, tm, co, cd, rr, lo, hi)->Some_0.0 <= hi,
{
}

#[derive(Clone, Copy, PartialEq, Eq, Structural)]
pub enum Entity {
    Sphere(Ray, Scalar, Material),
}

impl Entity {
    /// A well-formed entity: a sphere of nonzero radius with a well-formed
    /// material.
    pub open spec fn wf(self) -> bool {
        match self {
            Entity::Sphere(_, radius, material) => radius@ != 0 && material_wf(material),
        }
    }

    /// The material of the entity.
    pub open spec fn material_of(self) -> Material {
        match self {
            Entity::Sphere(_, _, material) => material,
        }
    }

    /// The entity's sphere-hit tuple for a ray and raw interval bounds.
    pub open spec fn hit_spec_raw(self, ray: Ray, lo: int, hi: int) -> Option<
        (int, (int, int, int), (int, int, int)),
    > {
        match self {
            Entity::Sphere(center, radius, _) => sphere_hit(
                ray.origin@,
                ray.direction@,
                ray.time@,
                center.origin@,
                center.direction@,
                radius@,
                lo,
                hi,
            ),
        }
    }

    /// The entity's sphere-hit tuple for a ray and an interval.
    pub open spec fn hit_spec(self, ray: Ray, interval: Interval) -> Option<
        (int, (int, int, int), (int, int, int)),
    > {
        self.hit_spec_raw(ray, interval.min@, interval.max@)
    }

    /// A stationary sphere: its center path stands still.
    pub fn sphere(center: Point, radius: Scalar, material: Material) -> (r: Entity)
        requires
            radius@ != 0,
            material_wf(material),
        ensures
            r is Sphere,
            r->Sphere_0.origin == center,
            r->Sphere_0.direction@ == (0int, 0int, 0int),
            r->Sphere_0.time@ == 0,
            r->Sphere_1 == radius,
            r->Sphere_2 == material,
            r.wf(),
    {
        Entity::Sphere(
            Ray::new(
                center,
                Vec3::new(Scalar { raw: 0 }, Scalar { raw: 0 }, Scalar { raw: 0 }),
                Scalar { raw: 0 },
            ),
            radius,
            material,
        )
    }

    /// A sphere moving linearly from one center to another over unit time.
    pub fn moving_sphere(center: Point, center2: Point, radius: Scalar, material: Material) -> (r:
        Entity)
        requires
            radius@ != 0,
            material_wf(material),
            fits3(sub3(center2@, center@)),
        ensures
            r is Sphere,
            r->Sphere_0.origin == center,
            r->Sphere_0.direction@ == sub3(center2@, center@),
            r->Sphere_0.time@ == 0,
            r->Sphere_1 == radius,
            r->Sphere_2 == material,
            r.wf(),
    {
        Entity::Sphere(
            Ray::new(center, center2.sub(center), Scalar { raw: 0 }),
            radius,
            material,
        )
    }

    /// The nearest intersection of the ray with this entity whose parameter
    /// lies in the interval, or `None`.
    pub fn hit(&self, ray: &Ray, interval: &Interval) -> (r: Option<HitRecord>)
        requires
            self.wf(),
        ensures
            hit_matches(r, self.hit_spec(*ray, *interval), ray.direction@, self.material_of()),
            r is Some ==> interval.min@ <= r->Some_0.t@ <= interval.max@,
    {
        let result = match self {
            Entity::Sphere(center, radius, material) => hit_sphere(
                ray,
                interval,
                center,
                *radius,
                *material,
            ),
        };
        proof {
            if result is Some {
                match self {
                    Entity::Sphere(center, radius, _) => {
                        lemma_sphere_hit_in_interval(
                            ray.origin@,
                            ray.direction@,
                            ray.time@,
                            center.origin@,
                            center.direction@,
                            radius@,
                            interval.min@,
                            interval.max@,
                        );
                    },
                }
            }
        }
        result
    }
}

/// Solves the sphere quadratic with checked arithmetic and builds the
/// oriented hit record.
fn hit_sphere(
    ray: &Ray,
    interval: &Interval,
    center: &Ray,
    radius: Scalar,
    material: Material,
) -> (r: Option<HitRecord>)
    requires
        radius@ != 0,
    ensures
        hit_matches(
            r,
            sphere_hit(
                ray.origin@,
                ray.direction@,
                ray.time@,
                center.origin@,
                center.direction@,
                radius@,
                interval.min@,
                interval.max@,
            ),
            ray.direction@,
            material,
        ),
{
    let current_center = match center.checked_at(ray.time) {
        Some(v) => v,
        None => {
            return None;
        },
    };
    let oc = match current_center.checked_sub(ray.origin) {
        Some(v) => v,
        None => {
            return None;
        },
    };
    let a = match ray.direction.checked_dot(ray.direction) {
        Some(v) => v,
        None => {
            return None;
        },
    };
    if a.raw == 0 {
        return None;
    }
    let h = match ray.direction.checked_dot(oc) {
        Some(v) => v,
        None => {
            return None;
        },
    };
    let ocls = match oc.checked_dot(oc) {
        Some(v) => v,
        None => {
            return None;
        },
    };
    let rr2 = match radius.checked_mul(radius) {
        Some(v) => v,
        None => {
            return None;
        },
    };
    if (rr2.raw > 0 && ocls.raw < i64::MIN + rr2.raw) || (rr2.raw < 0 && ocls.raw > i64::MAX
        + rr2.raw) {
        return None;
    }
    let c = Scalar { raw: ocls.raw - rr2.raw };
    let hh = match h.checked_mul(h) {
        Some(v) => v,
        None => {
            return None;
        },
    };
    let ac = match a.checked_mul(c) {
        Some(v) => v,
        None => {
            return None;
        },
    };
    if (ac.raw > 0 && hh.raw < i64::MIN + ac.raw) || (ac.raw < 0 && hh.raw > i64::MAX + ac.raw) {
        return None;
    }
    let discriminant = Scalar { raw: hh.raw - ac.raw };
    if discriminant.raw < 0 {
        return None;
    }
    let sqrtd = discriminant.sqrt();
    proof {
        lemma_isqrt(discriminant@ * SCALE);
    }
    if h.raw < i64::MIN + sqrtd.raw {
        return None;
    }
    let num1 = Scalar { raw: h.raw - sqrtd.raw };
    let r1 = match num1.checked_div(a) {
        Some(v) => v,
        None => {
            return None;
        },
    };
    let root = if interval.contains(r1) {
        r1
    } else {
        match second_root(h, sqrtd, a, interval) {
            Some(v) => v,
            None => {
                return None;
            },
        }
    };
    let p = match ray.checked_at(root) {
        Some(v) => v,
        None => {
            return None;
        },
    };
    let pc = match p.checked_sub(current_center) {
        Some(v) => v,
        None => {
            return None;
        },
    };
    let normal = match pc.checked_div(radius) {
        Some(v) => v,
        None => {
            return None;
        },
    };
    if !(-2 * SCALE <= normal.x.raw && normal.x.raw <= 2 * SCALE && -2 * SCALE <= normal.y.raw
        && normal.y.raw <= 2 * SCALE && -2 * SCALE <= normal.z.raw && normal.z.raw <= 2 * SCALE) {
        return None;
    }
    match ray.direction.checked_dot(normal) {
        Some(_) => {},
        None => {
            return None;
        },
    }
    Some(HitRecord::new(p, normal, root, ray, material))
}

/// The farther root `(h + sqrt(d)) / a`, where it fits and the interval
/// admits it.
fn second_root(h: Scalar, sqrtd: Scalar, a: Scalar, interval: &Interval) -> (r: Option<Scalar>)
    requires
        a@ != 0,
        sqrtd@ >= 0,
    ensures
        match r {
            Some(v) => fits_raw(h@ + sqrtd@) && fits_raw(sdiv(h@ + sqrtd@, a@)) && v@ == sdiv(
                h@ + sqrtd@,
                a@,
            ) && interval.min@ <= v@ <= interval.max@,
            None => !fits_raw(h@ + sqrtd@) || !fits_raw(sdiv(h@ + sqrtd@, a@)) || !(interval.min@
                <= sdiv(h@ + sqrtd@, a@) <= interval.max@),
        },
{
    if h.raw > i64::MAX - sqrtd.raw {
        return None;
    }
    let num2 = Scalar { raw: h.raw + sqrtd.raw };
    match num2.checked_div(a) {
        Some(r2) => {
            if interval.contains(r2) {
                Some(r2)
            } else {
                None
            }
        },
        None => None,
    }
}

} // verus!
