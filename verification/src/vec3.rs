//! Three-component vectors over the fixed-point scalar.
//!
//! The same type serves as a free direction and as a world-space point, as
//! the tracer's callers expect. Contracts speak over the view of a vector,
//! a triple of raw integer values, through the spec functions below.

use crate::rng::random_raw;
use crate::scalar::{
    fits_raw, isqrt_spec, lemma_isqrt, lemma_tdiv_mul_cancel, sdiv, smul, tdiv, Scalar, SCALE,
};
use vstd::prelude::*;

verus! {

#[derive(Clone, Copy, PartialEq, Eq, Structural, Debug)]
pub struct Vec3 {
    pub x: Scalar,
    pub y: Scalar,
    pub z: Scalar,
}

pub type Vector = Vec3;

pub type Point = Vec3;

impl View for Vec3 {
    type V = (int, int, int);

    open spec fn view(&self) -> (int, int, int) {
        (self.x@, self.y@, self.z@)
    }
}

pub open spec fn add3(a: (int, int, int), b: (int, int, int)) -> (int, int, int) {
    (a.0 + b.0, a.1 + b.1, a.2 + b.2)
}

pub open spec fn sub3(a: (int, int, int), b: (int, int, int)) -> (int, int, int) {
    (a.0 - b.0, a.1 - b.1, a.2 - b.2)
}

pub open spec fn neg3(a: (int, int, int)) -> (int, int, int) {
    (-a.0, -a.1, -a.2)
}

/// Each component scaled by the scalar with raw value `t`.
pub open spec fn smul3(a: (int, int, int), t: int) -> (int, int, int) {
    (smul(a.0, t), smul(a.1, t), smul(a.2, t))
}

/// Componentwise product, as colors multiply.
pub open spec fn mul3(a: (int, int, int), b: (int, int, int)) -> (int, int, int) {
    (smul(a.0, b.0), smul(a.1, b.1), smul(a.2, b.2))
}

/// Each component divided by the scalar with raw value `d`.
pub open spec fn div3(a: (int, int, int), d: int) -> (int, int, int)
    recommends
        d != 0,
{
    (sdiv(a.0, d), sdiv(a.1, d), sdiv(a.2, d))
}

/// Raw value of the dot product: the raw products are summed exactly and
/// rescaled once.
pub open spec fn dot3(a: (int, int, int), b: (int, int, int)) -> int {
    tdiv(a.0 * b.0 + a.1 * b.1 + a.2 * b.2, SCALE as int)
}

/// Whether the dot product's intermediates stay in machine range.
pub open spec fn dot_fits3(a: (int, int, int), b: (int, int, int)) -> bool {
    &&& i128::MIN <= a.0 * b.0 + a.1 * b.1 <= i128::MAX
    &&& i128::MIN <= a.0 * b.0 + a.1 * b.1 + a.2 * b.2 <= i128::MAX
    &&& fits_raw(dot3(a, b))
}

pub open spec fn cross3(a: (int, int, int), b: (int, int, int)) -> (int, int, int) {
    (
        tdiv(a.1 * b.2 - a.2 * b.1, SCALE as int),
        tdiv(a.2 * b.0 - a.0 * b.2, SCALE as int),
        tdiv(a.0 * b.1 - a.1 * b.0, SCALE as int),
    )
}

pub open spec fn ls3(a: (int, int, int)) -> int {
    dot3(a, a)
}

/// Raw value of the magnitude: the floor square root of the squared length.
pub open spec fn mag3(a: (int, int, int)) -> int {
    isqrt_spec(ls3(a) * SCALE)
}

pub open spec fn norm3(a: (int, int, int)) -> (int, int, int) {
    div3(a, mag3(a))
}

/// Every component within `b` of zero.
pub open spec fn bounded3(a: (int, int, int), b: int) -> bool {
    &&& -b <= a.0 <= b
    &&& -b <= a.1 <= b
    &&& -b <= a.2 <= b
}

pub open spec fn fits3(a: (int, int, int)) -> bool {
    fits_raw(a.0) && fits_raw(a.1) && fits_raw(a.2)
}

/// What the unit-length sampler can hand back: the normalization of some
/// point drawn from the half-open unit cube whose squared length lies
/// between one raw step and one, or the unit vector along the first axis
/// where rejection is exhausted.
pub open spec fn possible_unit_sample(v: (int, int, int)) -> bool {
    ||| v == (SCALE as int, 0int, 0int)
    ||| exists|p: (int, int, int)|
        {
            &&& -SCALE <= p.0 < SCALE
            &&& -SCALE <= p.1 < SCALE
            &&& -SCALE <= p.2 < SCALE
            &&& 1 <= ls3(p) <= SCALE
            &&& v == #[trigger] norm3(p)
        }
}

/// Mirror reflection about a normal.
pub open spec fn reflect3(d: (int, int, int), n: (int, int, int)) -> (int, int, int) {
    sub3(d, smul3(n, 2 * dot3(d, n)))
}

/// Refraction of a near-unit direction about a near-unit normal, for the
/// relative index with raw value `ri`: the perpendicular component follows
/// Snell's law, the parallel one restores unit length within rounding.
pub open spec fn refract3(uv: (int, int, int), n: (int, int, int), ri: int) -> (int, int, int) {
    let cos0 = if -dot3(uv, n) <= SCALE {
        -dot3(uv, n)
    } else {
        SCALE as int
    };
    let cos = if cos0 < -SCALE {
        -(SCALE as int)
    } else {
        cos0
    };
    let perp = smul3(add3(uv, smul3(n, cos)), ri);
    let k = if SCALE - ls3(perp) >= 0 {
        SCALE - ls3(perp)
    } else {
        -(SCALE - ls3(perp))
    };
    add3(perp, smul3(n, -isqrt_spec(k * SCALE)))
}

/// Truncation toward zero never grows a magnitude and keeps order on
/// non-negative numerators.
pub proof fn lemma_tdiv_bound(p: int, bp: int, d: int)
    requires
        d > 0,
        -bp <= p <= bp,
        0 <= bp,
    ensures
        -bp <= tdiv(p, d) <= bp,
        0 <= p ==> 0 <= tdiv(p, d) <= p,
        p <= 0 ==> p <= tdiv(p, d) <= 0,
{
    if p >= 0 {
        assert(0 <= p / d <= p) by (nonlinear_arith)
            requires
                d > 0,
                p >= 0,
        ;
    } else {
        assert(0 <= (-p) / d <= -p) by (nonlinear_arith)
            requires
                d > 0,
                p < 0,
        ;
    }
}

/// Truncation is monotone for a fixed positive divisor.
pub proof fn lemma_tdiv_mono(p: int, q: int, d: int)
    requires
        d > 0,
        p <= q,
    ensures
        tdiv(p, d) <= tdiv(q, d),
{
    if p >= 0 {
        assert(p / d <= q / d) by (nonlinear_arith)
            requires
                d > 0,
                0 <= p <= q,
        ;
    } else if q < 0 {
        assert((-q) / d <= (-p) / d) by (nonlinear_arith)
            requires
                d > 0,
                0 <= -q <= -p,
        ;
    } else {
        assert(0 <= (-p) / d && 0 <= q / d) by (nonlinear_arith)
            requires
                d > 0,
                p < 0 <= q,
        ;
    }
}

/// Componentwise bounds push through the dot product: it stays in machine
/// range and within the rescaled sum of three cross-bound products.
pub proof fn lemma_dot3_bounded(a: (int, int, int), b: (int, int, int), ba: int, bb: int)
    requires
        bounded3(a, ba),
        bounded3(b, bb),
        0 <= ba,
        0 <= bb,
        3 * ba * bb <= 0x7fff_ffff_ffff_ffffint * 0x1_0000,
    ensures
        dot_fits3(a, b),
        -(3 * ba * bb) <= a.0 * b.0 + a.1 * b.1 + a.2 * b.2 <= 3 * ba * bb,
        -(tdiv(3 * ba * bb, SCALE as int)) <= dot3(a, b) <= tdiv(3 * ba * bb, SCALE as int),
{
    let c = ba * bb;
    assert(0 <= c && -c <= a.0 * b.0 <= c && -c <= a.1 * b.1 <= c && -c <= a.2 * b.2 <= c && 3 * ba
        * bb == 3 * c) by (nonlinear_arith)
        requires
            bounded3(a, ba),
            bounded3(b, bb),
            0 <= ba,
            0 <= bb,
            c == ba * bb,
    ;
    let sum = a.0 * b.0 + a.1 * b.1 + a.2 * b.2;
    lemma_tdiv_mono(sum, 3 * c, SCALE as int);
    lemma_tdiv_mono(-(3 * c), sum, SCALE as int);
    lemma_tdiv_neg(3 * c, SCALE as int);
    lemma_tdiv_mono(3 * c, 0x7fff_ffff_ffff_ffffint * 0x1_0000, SCALE as int);
    assert(tdiv(0x7fff_ffff_ffff_ffffint * 0x1_0000, SCALE as int) == 0x7fff_ffff_ffff_ffffint);
    lemma_tdiv_bound(3 * c, 3 * c, SCALE as int);
}

/// The product of two machine words stays far inside the doubled width.
pub proof fn lemma_i64_prod_in_i128(a: i64, b: i64)
    by (nonlinear_arith)
    ensures
        -0x4000_0000_0000_0000_0000_0000_0000_0000int <= (a as int) * (b as int)
            <= 0x4000_0000_0000_0000_0000_0000_0000_0000int,
{
}

/// Componentwise bounds push through one rescaled product.
pub proof fn lemma_smul_bounded(x: int, y: int, bx: int, by: int)
    requires
        -bx <= x <= bx,
        -by <= y <= by,
        0 <= bx,
        0 <= by,
    ensures
        -(bx * by) <= x * y <= bx * by,
        -(bx * by) <= smul(x, y) <= bx * by,
        -(tdiv(bx * by, SCALE as int)) <= smul(x, y) <= tdiv(bx * by, SCALE as int),
{
    assert(-(bx * by) <= x * y <= bx * by) by (nonlinear_arith)
        requires
            -bx <= x <= bx,
            -by <= y <= by,
            0 <= bx,
            0 <= by,
    ;
    lemma_tdiv_bound(x * y, bx * by, SCALE as int);
    lemma_tdiv_mono(x * y, bx * by, SCALE as int);
    lemma_tdiv_mono(-(bx * by), x * y, SCALE as int);
    lemma_tdiv_neg(bx * by, SCALE as int);
}

/// A bounded numerator divided by a divisor of known least magnitude stays
/// within the correspondingly rescaled bound.
pub proof fn lemma_sdiv_bounded(a: int, b: int, ba: int, bmin: int)
    requires
        -ba <= a <= ba,
        0 <= ba,
        0 < bmin <= b,
    ensures
        -(tdiv(ba * SCALE, bmin)) <= sdiv(a, b) <= tdiv(ba * SCALE, bmin),
{
    let s = SCALE as int;
    assert(-(ba * s) <= a * s <= ba * s) by (nonlinear_arith)
        requires
            -ba <= a <= ba,
            s > 0,
    ;
    lemma_tdiv_mono(a * s, ba * s, b);
    lemma_tdiv_mono(-(ba * s), a * s, b);
    lemma_tdiv_neg(ba * s, b);
    assert(ba * s >= 0) by (nonlinear_arith)
        requires
            ba >= 0,
            s > 0,
    ;
    vstd::arithmetic::div_mod::lemma_div_is_ordered_by_denominator(ba * s, bmin, b);
    assert(tdiv(ba * s, b) == (ba * s) / b);
    assert(tdiv(ba * s, bmin) == (ba * s) / bmin);
}

/// Componentwise bounds push through scaling a vector by a scalar.
pub proof fn lemma_smul3_bounded(v: (int, int, int), t: int, bv: int, bt: int, bq: int)
    requires
        bounded3(v, bv),
        -bt <= t <= bt,
        0 <= bv,
        0 <= bt,
        0 <= bq <= i64::MAX,
        bv * bt <= bq * (SCALE as int),
    ensures
        bounded3(smul3(v, t), bq),
        fits3(smul3(v, t)),
{
    lemma_tdiv_mul_cancel(bq, SCALE as int);
    lemma_smul_bounded(v.0, t, bv, bt);
    lemma_smul_bounded(v.1, t, bv, bt);
    lemma_smul_bounded(v.2, t, bv, bt);
    lemma_tdiv_mono(bv * bt, bq * (SCALE as int), SCALE as int);
    lemma_tdiv_neg(bv * bt, SCALE as int);
    lemma_tdiv_neg(bq * (SCALE as int), SCALE as int);
}

/// Componentwise bounds push through dividing a vector by a scalar of
/// known least magnitude.
pub proof fn lemma_div3_bounded(v: (int, int, int), d: int, bv: int, dmin: int, bq: int)
    requires
        bounded3(v, bv),
        0 <= bv,
        0 < dmin <= d,
        0 <= bq <= i64::MAX,
        bv * (SCALE as int) <= bq * dmin,
    ensures
        bounded3(div3(v, d), bq),
        fits3(div3(v, d)),
{
    lemma_sdiv_bounded(v.0, d, bv, dmin);
    lemma_sdiv_bounded(v.1, d, bv, dmin);
    lemma_sdiv_bounded(v.2, d, bv, dmin);
    assert(bv * (SCALE as int) == (SCALE as int) * bv) by (nonlinear_arith);
    lemma_tdiv_mono(bv * (SCALE as int), bq * dmin, dmin);
    lemma_tdiv_mul_cancel(bq, dmin);
    lemma_tdiv_neg(bv * (SCALE as int), dmin);
    lemma_tdiv_neg(bq * dmin, dmin);
}

/// Componentwise bounds push through the cross product.
pub proof fn lemma_cross3_bounded(a: (int, int, int), b: (int, int, int), ba: int, bb: int, bq: int)
    requires
        bounded3(a, ba),
        bounded3(b, bb),
        0 <= ba,
        0 <= bb,
        0 <= bq <= i64::MAX,
        2 * (ba * bb) <= bq * (SCALE as int),
    ensures
        i128::MIN <= a.1 * b.2 - a.2 * b.1 <= i128::MAX,
        i128::MIN <= a.2 * b.0 - a.0 * b.2 <= i128::MAX,
        i128::MIN <= a.0 * b.1 - a.1 * b.0 <= i128::MAX,
        bounded3(cross3(a, b), bq),
        fits3(cross3(a, b)),
{
    let c = ba * bb;
    assert(0 <= c && -c <= a.1 * b.2 <= c && -c <= a.2 * b.1 <= c && -c <= a.2 * b.0 <= c && -c
        <= a.0 * b.2 <= c && -c <= a.0 * b.1 <= c && -c <= a.1 * b.0 <= c) by (nonlinear_arith)
        requires
            bounded3(a, ba),
            bounded3(b, bb),
            0 <= ba,
            0 <= bb,
            c == ba * bb,
    ;
    lemma_tdiv_mul_cancel(bq, SCALE as int);
    lemma_tdiv_mono(a.1 * b.2 - a.2 * b.1, 2 * c, SCALE as int);
    lemma_tdiv_mono(a.2 * b.0 - a.0 * b.2, 2 * c, SCALE as int);
    lemma_tdiv_mono(a.0 * b.1 - a.1 * b.0, 2 * c, SCALE as int);
    lemma_tdiv_mono(2 * c, bq * (SCALE as int), SCALE as int);
    lemma_tdiv_mono(-(bq * (SCALE as int)), -(2 * c), SCALE as int);
    lemma_tdiv_mono(-(2 * c), a.1 * b.2 - a.2 * b.1, SCALE as int);
    lemma_tdiv_mono(-(2 * c), a.2 * b.0 - a.0 * b.2, SCALE as int);
    lemma_tdiv_mono(-(2 * c), a.0 * b.1 - a.1 * b.0, SCALE as int);
    lemma_tdiv_neg(bq * (SCALE as int), SCALE as int);
}

/// A squared length is never negative.
pub proof fn lemma_ls3_nonneg(a: (int, int, int))
    ensures
        0 <= a.0 * a.0,
        0 <= a.1 * a.1,
        0 <= a.2 * a.2,
        0 <= a.0 * a.0 + a.1 * a.1 + a.2 * a.2,
        0 <= ls3(a),
{
    assert(0 <= a.0 * a.0 && 0 <= a.1 * a.1 && 0 <= a.2 * a.2) by (nonlinear_arith);
    lemma_tdiv_bound(a.0 * a.0 + a.1 * a.1 + a.2 * a.2, a.0 * a.0 + a.1 * a.1 + a.2 * a.2,
        SCALE as int);
}

/// A normalized vector's components lie within twice the unit, because each
/// raw component is at most a rounding step above the magnitude.
pub proof fn lemma_norm3_bounded(a: (int, int, int))
    requires
        dot_fits3(a, a),
        1 <= ls3(a),
    ensures
        256 <= mag3(a),
        bounded3(norm3(a), 2 * SCALE),
        fits3(norm3(a)),
{
    let s = SCALE as int;
    let sum = a.0 * a.0 + a.1 * a.1 + a.2 * a.2;
    let ls = ls3(a);
    let m = mag3(a);
    lemma_ls3_nonneg(a);
    assert(ls == sum / s);
    assert(sum < s * (ls + 1) && s * ls <= sum) by (nonlinear_arith)
        requires
            s > 0,
            sum >= 0,
            ls == sum / s,
    ;
    lemma_isqrt(ls * s);
    assert(m * m <= ls * s < (m + 1) * (m + 1));
    assert(256 * 256 <= ls * s) by (nonlinear_arith)
        requires
            1 <= ls,
            s == 65536,
    ;
    assert(256 <= m) by (nonlinear_arith)
        requires
            m >= 0,
            256 * 256 <= ls * s,
            ls * s < (m + 1) * (m + 1),
    ;
    assert forall|x: int|
        x == a.0 || x == a.1 || x == a.2 implies -(2 * s) <= #[trigger] sdiv(x, m) <= 2 * s by {
        assert(x * x <= sum) by (nonlinear_arith)
            requires
                0 <= a.0 * a.0 && 0 <= a.1 * a.1 && 0 <= a.2 * a.2,
                x == a.0 || x == a.1 || x == a.2,
                sum == a.0 * a.0 + a.1 * a.1 + a.2 * a.2,
        ;
        assert(s * ls <= ls * s) by (nonlinear_arith);
        assert(x * x < (m + 1) * (m + 1) + s);
        assert(-(m + 256) <= x <= m + 256) by (nonlinear_arith)
            requires
                x * x < (m + 1) * (m + 1) + s,
                s == 65536,
                m >= 256,
        ;
        assert(x * s <= (m + 256) * s && -((m + 256) * s) <= x * s) by (nonlinear_arith)
            requires
                -(m + 256) <= x <= m + 256,
                s > 0,
        ;
        assert((m + 256) * s <= m * (2 * s)) by (nonlinear_arith)
            requires
                m >= 256,
                s > 0,
        ;
        lemma_tdiv_mono(x * s, m * (2 * s), m);
        lemma_tdiv_mono(-(m * (2 * s)), x * s, m);
        assert(tdiv(m * (2 * s), m) == 2 * s) by (nonlinear_arith)
            requires
                m > 0,
                s > 0,
        ;
        assert(tdiv(-(m * (2 * s)), m) == -(2 * s));
        assert(sdiv(x, m) == tdiv(x * s, m));
    }
}

impl Vec3 {
    pub fn new(x: Scalar, y: Scalar, z: Scalar) -> (r: Vec3)
        ensures
            r@ == (x@, y@, z@),
    {
        Vec3 { x, y, z }
    }

    /// A vector of random components, each uniform in `[0, 1)`.
    pub fn random() -> (r: Vec3)
        ensures
            bounded3(r@, SCALE as int),
            0 <= r@.0 < SCALE && 0 <= r@.1 < SCALE && 0 <= r@.2 < SCALE,
    {
        Vec3 {
            x: Scalar { raw: random_raw(0, SCALE) },
            y: Scalar { raw: random_raw(0, SCALE) },
            z: Scalar { raw: random_raw(0, SCALE) },
        }
    }

    /// A vector of random components, each uniform in `[min, max)`.
    pub fn random_in(min: Scalar, max: Scalar) -> (r: Vec3)
        requires
            min@ < max@,
        ensures
            min@ <= r@.0 < max@ && min@ <= r@.1 < max@ && min@ <= r@.2 < max@,
    {
        Vec3 {
            x: Scalar { raw: random_raw(min.raw, max.raw) },
            y: Scalar { raw: random_raw(min.raw, max.raw) },
            z: Scalar { raw: random_raw(min.raw, max.raw) },
        }
    }

    pub fn add(self, rhs: Vec3) -> (r: Vec3)
        requires
            fits3(add3(self@, rhs@)),
        ensures
            r@ == add3(self@, rhs@),
    {
        Vec3 {
            x: Scalar { raw: self.x.raw + rhs.x.raw },
            y: Scalar { raw: self.y.raw + rhs.y.raw },
            z: Scalar { raw: self.z.raw + rhs.z.raw },
        }
    }

    pub fn sub(self, rhs: Vec3) -> (r: Vec3)
        requires
            fits3(sub3(self@, rhs@)),
        ensures
            r@ == sub3(self@, rhs@),
    {
        Vec3 {
            x: Scalar { raw: self.x.raw - rhs.x.raw },
            y: Scalar { raw: self.y.raw - rhs.y.raw },
            z: Scalar { raw: self.z.raw - rhs.z.raw },
        }
    }

    pub fn neg(self) -> (r: Vec3)
        requires
            fits3(neg3(self@)),
        ensures
            r@ == neg3(self@),
    {
        Vec3 {
            x: Scalar { raw: -self.x.raw },
            y: Scalar { raw: -self.y.raw },
            z: Scalar { raw: -self.z.raw },
        }
    }

    /// Multiplication by a scalar.
    pub fn mul(self, rhs: Scalar) -> (r: Vec3)
        requires
            fits3(smul3(self@, rhs@)),
        ensures
            r@ == smul3(self@, rhs@),
    {
        Vec3 { x: self.x.mul(rhs), y: self.y.mul(rhs), z: self.z.mul(rhs) }
    }

    /// Componentwise multiplication, as colors attenuate.
    pub fn mul_vec(self, rhs: Vec3) -> (r: Vec3)
        requires
            fits3(mul3(self@, rhs@)),
        ensures
            r@ == mul3(self@, rhs@),
    {
        Vec3 { x: self.x.mul(rhs.x), y: self.y.mul(rhs.y), z: self.z.mul(rhs.z) }
    }

    /// Division by a scalar.
    pub fn div(self, rhs: Scalar) -> (r: Vec3)
        requires
            rhs@ != 0,
            fits3(div3(self@, rhs@)),
        ensures
            r@ == div3(self@, rhs@),
    {
        Vec3 { x: self.x.div(rhs), y: self.y.div(rhs), z: self.z.div(rhs) }
    }

    /// Difference, or `None` where a component leaves machine range.
    pub fn checked_sub(self, rhs: Vec3) -> (r: Option<Vec3>)
        ensures
            match r {
                Some(v) => fits3(sub3(self@, rhs@)) && v@ == sub3(self@, rhs@),
                None => !fits3(sub3(self@, rhs@)),
            },
    {
        let a = self.x.raw;
        let b = self.y.raw;
        let c = self.z.raw;
        let d = rhs.x.raw;
        let e = rhs.y.raw;
        let f = rhs.z.raw;
        if (d > 0 && a < i64::MIN + d) || (d < 0 && a > i64::MAX + d) {
            return None;
        }
        if (e > 0 && b < i64::MIN + e) || (e < 0 && b > i64::MAX + e) {
            return None;
        }
        if (f > 0 && c < i64::MIN + f) || (f < 0 && c > i64::MAX + f) {
            return None;
        }
        Some(
            Vec3 {
                x: Scalar { raw: a - d },
                y: Scalar { raw: b - e },
                z: Scalar { raw: c - f },
            },
        )
    }

    /// Division by a scalar, or `None` for a zero divisor or a component
    /// out of range.
    pub fn checked_div(self, rhs: Scalar) -> (r: Option<Vec3>)
        ensures
            match r {
                Some(v) => rhs@ != 0 && fits3(div3(self@, rhs@)) && v@ == div3(self@, rhs@),
                None => rhs@ == 0 || !fits3(div3(self@, rhs@)),
            },
    {
        let x = match self.x.checked_div(rhs) {
            Some(v) => v,
            None => {
                return None;
            },
        };
        let y = match self.y.checked_div(rhs) {
            Some(v) => v,
            None => {
                return None;
            },
        };
        let z = match self.z.checked_div(rhs) {
            Some(v) => v,
            None => {
                return None;
            },
        };
        Some(Vec3 { x, y, z })
    }

    pub fn dot(self, rhs: Vec3) -> (r: Scalar)
        requires
            dot_fits3(self@, rhs@),
        ensures
            r@ == dot3(self@, rhs@),
    {
        match self.checked_dot(rhs) {
            Some(v) => v,
            None => {
                proof {
                    assert(false);
                }
                Scalar { raw: 0 }
            },
        }
    }

    /// Dot product, or `None` where an intermediate leaves machine range.
    pub fn checked_dot(self, rhs: Vec3) -> (r: Option<Scalar>)
        ensures
            match r {
                Some(v) => dot_fits3(self@, rhs@) && v@ == dot3(self@, rhs@),
                None => !dot_fits3(self@, rhs@),
            },
    {
        proof {
            lemma_i64_prod_in_i128(self.x.raw, rhs.x.raw);
            lemma_i64_prod_in_i128(self.y.raw, rhs.y.raw);
            lemma_i64_prod_in_i128(self.z.raw, rhs.z.raw);
        }
        let p0: i128 = (self.x.raw as i128) * (rhs.x.raw as i128);
        let p1: i128 = (self.y.raw as i128) * (rhs.y.raw as i128);
        let p2: i128 = (self.z.raw as i128) * (rhs.z.raw as i128);
        if p1 > 0 && p0 > i128::MAX - p1 {
            return None;
        }
        if p1 < 0 && p0 < i128::MIN - p1 {
            return None;
        }
        let s01: i128 = p0 + p1;
        if p2 > 0 && s01 > i128::MAX - p2 {
            return None;
        }
        if p2 < 0 && s01 < i128::MIN - p2 {
            return None;
        }
        let s: i128 = s01 + p2;
        match crate::scalar::tdiv_i128(s, SCALE as u64, false) {
            Some(v) => Some(Scalar { raw: v }),
            None => None,
        }
    }

    pub fn cross(self, rhs: Vec3) -> (r: Vec3)
        requires
            i128::MIN <= self@.1 * rhs@.2 - self@.2 * rhs@.1 <= i128::MAX,
            i128::MIN <= self@.2 * rhs@.0 - self@.0 * rhs@.2 <= i128::MAX,
            i128::MIN <= self@.0 * rhs@.1 - self@.1 * rhs@.0 <= i128::MAX,
            fits3(cross3(self@, rhs@)),
        ensures
            r@ == cross3(self@, rhs@),
    {
        proof {
            lemma_i64_prod_in_i128(self.y.raw, rhs.z.raw);
            lemma_i64_prod_in_i128(self.z.raw, rhs.y.raw);
            lemma_i64_prod_in_i128(self.z.raw, rhs.x.raw);
            lemma_i64_prod_in_i128(self.x.raw, rhs.z.raw);
            lemma_i64_prod_in_i128(self.x.raw, rhs.y.raw);
            lemma_i64_prod_in_i128(self.y.raw, rhs.x.raw);
        }
        let cx: i128 = (self.y.raw as i128) * (rhs.z.raw as i128) - (self.z.raw as i128) * (
        rhs.y.raw as i128);
        let cy: i128 = (self.z.raw as i128) * (rhs.x.raw as i128) - (self.x.raw as i128) * (
        rhs.z.raw as i128);
        let cz: i128 = (self.x.raw as i128) * (rhs.y.raw as i128) - (self.y.raw as i128) * (
        rhs.x.raw as i128);
        let x = match crate::scalar::tdiv_i128(cx, SCALE as u64, false) {
            Some(v) => Scalar { raw: v },
            None => {
                proof {
                    assert(false);
                }
                Scalar { raw: 0 }
            },
        };
        let y = match crate::scalar::tdiv_i128(cy, SCALE as u64, false) {
            Some(v) => Scalar { raw: v },
            None => {
                proof {
                    assert(false);
                }
                Scalar { raw: 0 }
            },
        };
        let z = match crate::scalar::tdiv_i128(cz, SCALE as u64, false) {
            Some(v) => Scalar { raw: v },
            None => {
                proof {
                    assert(false);
                }
                Scalar { raw: 0 }
            },
        };
        Vec3 { x, y, z }
    }

    pub fn length_squared(self) -> (r: Scalar)
        requires
            dot_fits3(self@, self@),
        ensures
            r@ == ls3(self@),
            r@ >= 0,
    {
        proof {
            lemma_ls3_nonneg(self@);
        }
        self.dot(self)
    }

    pub fn magnitude(self) -> (r: Scalar)
        requires
            dot_fits3(self@, self@),
        ensures
            r@ == mag3(self@),
            r@ >= 0,
    {
        proof {
            lemma_ls3_nonneg(self@);
        }
        self.length_squared().sqrt()
    }

    /// The vector scaled to unit length, within rounding: each component is
    /// divided by the floor magnitude.
    pub fn normalize(self) -> (r: Vec3)
        requires
            dot_fits3(self@, self@),
            1 <= ls3(self@),
        ensures
            r@ == norm3(self@),
            bounded3(r@, 2 * SCALE),
    {
        proof {
            lemma_norm3_bounded(self@);
        }
        let m = self.magnitude();
        self.div(m)
    }

    /// Mirror reflection about a surface normal: `d - 2 (d . n) n`.
    pub fn reflect(self, n: Vec3) -> (r: Vec3)
        requires
            dot_fits3(self@, n@),
            fits_raw(2 * dot3(self@, n@)),
            fits3(smul3(n@, 2 * dot3(self@, n@))),
            fits3(reflect3(self@, n@)),
        ensures
            r@ == reflect3(self@, n@),
    {
        let d = self.dot(n);
        let td = Scalar { raw: 2 * d.raw };
        let b = n.mul(td);
        self.sub(b)
    }

    /// Refraction by Snell's law, split into the components perpendicular
    /// and parallel to the normal; the incident direction and the normal are
    /// expected near unit length, and the cosine is clamped to the unit
    /// range before use.
    pub fn refract(self, n: Vec3, ri: Scalar) -> (r: Vec3)
        requires
            bounded3(self@, 2 * SCALE),
            bounded3(n@, 2 * SCALE),
            0 < ri@ <= 4 * SCALE,
        ensures
            r@ == refract3(self@, n@, ri@),
            bounded3(r@, 0x1_0000_0000),
    {
        proof {
            assert(3 * (2 * SCALE) * (2 * SCALE) <= 0x7fff_ffff_ffff_ffffint * 0x1_0000 && 3 * (2
                * SCALE) * (2 * SCALE) == (12 * SCALE) * (SCALE as int)) by (nonlinear_arith);
            lemma_tdiv_mul_cancel(12 * SCALE, SCALE as int);
            lemma_dot3_bounded(self@, n@, 2 * SCALE, 2 * SCALE);
        }
        let d = self.dot(n);
        let cos0 = Scalar { raw: -d.raw }.min_with(Scalar { raw: SCALE });
        let cos = if cos0.raw < -SCALE {
            Scalar { raw: -SCALE }
        } else {
            cos0
        };
        proof {
            lemma_tdiv_mul_cancel(2 * SCALE, SCALE as int);
            lemma_smul_bounded(n@.0, cos@, 2 * SCALE, SCALE as int);
            lemma_smul_bounded(n@.1, cos@, 2 * SCALE, SCALE as int);
            lemma_smul_bounded(n@.2, cos@, 2 * SCALE, SCALE as int);
        }
        let q = n.mul(cos);
        let w = self.add(q);
        proof {
            assert((4 * SCALE) * (4 * SCALE) == (16 * SCALE) * (SCALE as int)) by (
            nonlinear_arith);
            lemma_tdiv_mul_cancel(16 * SCALE, SCALE as int);
            lemma_smul_bounded(w@.0, ri@, 4 * SCALE, 4 * SCALE);
            lemma_smul_bounded(w@.1, ri@, 4 * SCALE, 4 * SCALE);
            lemma_smul_bounded(w@.2, ri@, 4 * SCALE, 4 * SCALE);
        }
        let perp = w.mul(ri);
        proof {
            assert(3 * (16 * SCALE) * (16 * SCALE) <= 0x7fff_ffff_ffff_ffffint * 0x1_0000 && 3 * (
            16 * SCALE) * (16 * SCALE) == (768 * SCALE) * (SCALE as int)) by (nonlinear_arith);
            lemma_tdiv_mul_cancel(768 * SCALE, SCALE as int);
            lemma_dot3_bounded(perp@, perp@, 16 * SCALE, 16 * SCALE);
            lemma_ls3_nonneg(perp@);
        }
        let lsq = perp.length_squared();
        let k = if SCALE - lsq.raw >= 0 {
            Scalar { raw: SCALE - lsq.raw }
        } else {
            Scalar { raw: -(SCALE - lsq.raw) }
        };
        let sq = k.sqrt();
        proof {
            lemma_isqrt(k@ * SCALE);
            assert(sq@ <= 0x4000_0000) by (nonlinear_arith)
                requires
                    sq@ * sq@ <= k@ * (SCALE as int),
                    0 <= sq@,
                    0 <= k@ <= 769 * 65536,
                    SCALE as int == 65536,
            ;
            assert((2 * SCALE) * 0x4000_0000int == (2 * 0x4000_0000int) * (SCALE as int)) by (
            nonlinear_arith);
            lemma_tdiv_mul_cancel(2 * 0x4000_0000int, SCALE as int);
            lemma_smul_bounded(n@.0, -sq@, 2 * SCALE, 0x4000_0000);
            lemma_smul_bounded(n@.1, -sq@, 2 * SCALE, 0x4000_0000);
            lemma_smul_bounded(n@.2, -sq@, 2 * SCALE, 0x4000_0000);
        }
        let par = n.mul(Scalar { raw: -sq.raw });
        let r = perp.add(par);
        proof {
            assert(r@ == refract3(self@, n@, ri@));
        }
        r
    }

    /// Whether the vector is exactly zero at the working precision.
    pub fn is_near_zero(self) -> (r: bool)
        ensures
            r == (self@ == (0int, 0int, 0int)),
    {
        self.x.raw == 0 && self.y.raw == 0 && self.z.raw == 0
    }

    /// A random vector of roughly unit length: points of the unit ball are
    /// drawn by bounded rejection and normalized; if every try misses, the
    /// unit vector along the first axis stands in. Every outcome is a
    /// possible unit sample, and no other value is.
    pub fn random_normalized() -> (r: Vec3)
        ensures
            bounded3(r@, 2 * SCALE),
            possible_unit_sample(r@),
    {
        let mut i: u64 = 0;
        while i < 64
            invariant
                i <= 64,
            decreases 64 - i,
        {
            let p = Vec3::random_in(Scalar { raw: -SCALE }, Scalar { raw: SCALE });
            proof {
                lemma_dot3_bounded(p@, p@, SCALE as int, SCALE as int);
            }
            let lensq = p.length_squared();
            if 1 <= lensq.raw && lensq.raw <= SCALE {
                let u = p.normalize();
                proof {
                    assert(-SCALE <= p@.0 < SCALE && -SCALE <= p@.1 < SCALE && -SCALE <= p@.2
                        < SCALE && 1 <= ls3(p@) <= SCALE && u@ == norm3(p@));
                }
                return u;
            }
            i = i + 1;
        }
        Vec3 { x: Scalar { raw: SCALE }, y: Scalar { raw: 0 }, z: Scalar { raw: 0 } }
    }

    /// A random point of the unit disk in the first two axes, by bounded
    /// rejection; if every try misses, the disk's center stands in.
    pub fn random_in_unit_disk() -> (r: Vec3)
        ensures
            bounded3(r@, SCALE as int),
            r@.2 == 0,
            ls3(r@) < SCALE,
    {
        let mut i: u64 = 0;
        while i < 64
            invariant
                i <= 64,
            decreases 64 - i,
        {
            let px = Scalar { raw: random_raw(-SCALE, SCALE) };
            let py = Scalar { raw: random_raw(-SCALE, SCALE) };
            let p = Vec3 { x: px, y: py, z: Scalar { raw: 0 } };
            proof {
                lemma_dot3_bounded(p@, p@, SCALE as int, SCALE as int);
            }
            let lensq = p.length_squared();
            if lensq.raw < SCALE {
                proof {
                    lemma_ls3_nonneg(p@);
                }
                return p;
            }
            i = i + 1;
        }
        let o = Vec3 { x: Scalar { raw: 0 }, y: Scalar { raw: 0 }, z: Scalar { raw: 0 } };
        proof {
            assert(o@.0 * o@.0 == 0 && o@.1 * o@.1 == 0 && o@.2 * o@.2 == 0) by (nonlinear_arith)
                requires
                    o@.0 == 0 && o@.1 == 0 && o@.2 == 0,
            ;
            assert(ls3(o@) == tdiv(0, SCALE as int));
            assert(tdiv(0, SCALE as int) == 0);
        }
        o
    }
}

/// Vector addition is commutative.
pub proof fn lemma_add3_comm(a: (int, int, int), b: (int, int, int))
    ensures
        add3(a, b) == add3(b, a),
{
}

/// Vector addition is associative.
pub proof fn lemma_add3_assoc(a: (int, int, int), b: (int, int, int), c: (int, int, int))
    ensures
        add3(add3(a, b), c) == add3(a, add3(b, c)),
{
}

/// The dot product is symmetric.
pub proof fn lemma_dot3_comm(a: (int, int, int), b: (int, int, int))
    ensures
        dot3(a, b) == dot3(b, a),
{
    assert(a.0 * b.0 + a.1 * b.1 + a.2 * b.2 == b.0 * a.0 + b.1 * a.1 + b.2 * a.2) by (
    nonlinear_arith);
}

/// Truncation commutes with negation.
pub proof fn lemma_tdiv_neg(p: int, d: int)
    requires
        d > 0,
    ensures
        tdiv(-p, d) == -tdiv(p, d),
{
}

/// The cross product is antisymmetric, exactly, because truncation rounds
/// toward zero.
pub proof fn lemma_cross3_antisym(a: (int, int, int), b: (int, int, int))
    ensures
        cross3(a, b) == neg3(cross3(b, a)),
{
    assert(a.1 * b.2 - a.2 * b.1 == -(b.1 * a.2 - b.2 * a.1)) by (nonlinear_arith);
    assert(a.2 * b.0 - a.0 * b.2 == -(b.2 * a.0 - b.0 * a.2)) by (nonlinear_arith);
    assert(a.0 * b.1 - a.1 * b.0 == -(b.0 * a.1 - b.1 * a.0)) by (nonlinear_arith);
    lemma_tdiv_neg(b.1 * a.2 - b.2 * a.1, SCALE as int);
    lemma_tdiv_neg(b.2 * a.0 - b.0 * a.2, SCALE as int);
    lemma_tdiv_neg(b.0 * a.1 - b.1 * a.0, SCALE as int);
}

/// Negating one side negates the dot product, exactly, because truncation
/// rounds toward zero.
pub proof fn lemma_dot3_neg(a: (int, int, int), b: (int, int, int))
    ensures
        dot3(a, neg3(b)) == -dot3(a, b),
{
    assert(a.0 * (-b.0) + a.1 * (-b.1) + a.2 * (-b.2) == -(a.0 * b.0 + a.1 * b.1 + a.2 * b.2)) by (
    nonlinear_arith);
    lemma_tdiv_neg(a.0 * b.0 + a.1 * b.1 + a.2 * b.2, SCALE as int);
}

/// A vector whose squared length truncates to zero is small in every
/// component.
pub proof fn lemma_ls3_zero_bounded(a: (int, int, int))
    requires
        ls3(a) == 0,
    ensures
        bounded3(a, 255),
{
    lemma_ls3_nonneg(a);
    let sum = a.0 * a.0 + a.1 * a.1 + a.2 * a.2;
    assert(sum / (SCALE as int) == 0);
    assert(sum < 65536) by {
        vstd::arithmetic::div_mod::lemma_fundamental_div_mod(sum, 65536);
        vstd::arithmetic::div_mod::lemma_mod_bound(sum, 65536);
    }
    assert(-255 <= a.0 <= 255 && -255 <= a.1 <= 255 && -255 <= a.2 <= 255) by (nonlinear_arith)
        requires
            0 <= a.0 * a.0 <= sum,
            0 <= a.1 * a.1 <= sum,
            0 <= a.2 * a.2 <= sum,
            sum < 65536,
    ;
}

/// Normalizing scales to unit magnitude, exactly, for a vector along one
/// axis whose squared component is exact at the working precision. For
/// other vectors truncation can leave the magnitude a rounding step short
/// of one, so this is the exactly provable part of the unit-length law.
pub proof fn lemma_normalize_axis_unit(c: int)
    requires
        c != 0,
        -0x100_0000_0000 <= c <= 0x100_0000_0000,
        (c * c) % (SCALE as int) == 0,
    ensures
        mag3((0int, 0int, c)) == if c >= 0 {
            c
        } else {
            -c
        },
        norm3((0int, 0int, c)) == (0int, 0int, if c >= 0 {
            SCALE as int
        } else {
            -(SCALE as int)
        }),
        mag3(norm3((0int, 0int, c))) == SCALE,
{
    let s = SCALE as int;
    let m = if c >= 0 {
        c
    } else {
        -c
    };
    assert(0int * 0 == 0 && 0 < c * c <= 0x100_0000_0000int * 0x100_0000_0000 && m * m == c * c
        && c * c < (m + 1) * (m + 1)) by (nonlinear_arith)
        requires
            c != 0,
            -0x100_0000_0000 <= c <= 0x100_0000_0000,
            m == if c >= 0 {
                c
            } else {
                -c
            },
    ;
    vstd::arithmetic::div_mod::lemma_fundamental_div_mod(c * c, s);
    let q = (c * c) / s;
    lemma_tdiv_bound(c * c, c * c, s);
    assert(ls3((0int, 0int, c)) == q);
    assert(q * s == c * c) by (nonlinear_arith)
        requires
            c * c == s * q,
    ;
    crate::scalar::lemma_isqrt_unique(c * c, m);
    assert(mag3((0int, 0int, c)) == m);
    assert(0int * s == 0) by (nonlinear_arith);
    lemma_tdiv_mul_cancel(0, m);
    assert(sdiv(0, m) == 0);
    if c >= 0 {
        assert(c * s == s * m) by (nonlinear_arith)
            requires
                c == m,
        ;
        lemma_tdiv_mul_cancel(s, m);
        assert(sdiv(c, m) == s);
    } else {
        assert(c * s == (-s) * m) by (nonlinear_arith)
            requires
                c == -m,
        ;
        lemma_tdiv_mul_cancel(-s, m);
        assert(sdiv(c, m) == -s);
    }
    let u = norm3((0int, 0int, c));
    assert((-s) * (-s) == s * s && s * s == s * s) by (nonlinear_arith);
    lemma_tdiv_mul_cancel(s, s);
    assert(ls3(u) == s);
    assert(s * s < (s + 1) * (s + 1)) by (nonlinear_arith)
        requires
            s > 0,
    ;
    crate::scalar::lemma_isqrt_unique(s * s, s);
}

/// The squared length is the dot product of a vector with itself.
pub proof fn lemma_ls3_is_dot(a: (int, int, int))
    ensures
        ls3(a) == dot3(a, a),
{
}

} // verus!
