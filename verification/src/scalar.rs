//! Fixed-point scalar arithmetic.
//!
//! Every quantity of the tracer is a multiple of `1 / SCALE`; a `Scalar`
//! stores that multiple in `raw`. Products and quotients round toward zero,
//! exactly as the contracts state through `smul` and `sdiv`.

use vstd::prelude::*;

verus! {

/// Raw steps per unit: a `Scalar` with `raw == SCALE` has the value one.
pub const SCALE: i64 = 65536;

/// Division truncated toward zero (the rounding of hardware division),
/// for a positive divisor.
pub open spec fn tdiv(p: int, d: int) -> int
    recommends
        d > 0,
{
    if p >= 0 {
        p / d
    } else {
        -((-p) / d)
    }
}

/// The raw value of the product of two scalars given by raw values.
pub open spec fn smul(a: int, b: int) -> int {
    tdiv(a * b, SCALE as int)
}

/// The raw value of the quotient of two scalars given by raw values.
pub open spec fn sdiv(a: int, b: int) -> int
    recommends
        b != 0,
{
    if b > 0 {
        tdiv(a * SCALE, b)
    } else {
        -tdiv(a * SCALE, -b)
    }
}

/// Whether a mathematical raw value is storable in an `i64`.
pub open spec fn fits_raw(x: int) -> bool {
    i64::MIN <= x <= i64::MAX
}

/// Floor of the square root of a non-negative integer.
pub open spec fn isqrt_spec(n: int) -> int
    decreases n,
{
    if n <= 0 {
        0
    } else {
        let r = isqrt_spec(n - 1);
        if (r + 1) * (r + 1) <= n {
            r + 1
        } else {
            r
        }
    }
}

/// `isqrt_spec` is the floor of the square root: it is the unique
/// non-negative `r` with `r * r <= n < (r + 1) * (r + 1)`.
pub proof fn lemma_isqrt(n: int)
    requires
        n >= 0,
    ensures
        isqrt_spec(n) >= 0,
        isqrt_spec(n) * isqrt_spec(n) <= n,
        n < (isqrt_spec(n) + 1) * (isqrt_spec(n) + 1),
    decreases n,
{
    if n == 0 {
    } else {
        lemma_isqrt(n - 1);
        let r = isqrt_spec(n - 1);
        if (r + 1) * (r + 1) <= n {
            assert(n - 1 < (r + 1) * (r + 1));
            assert(n < (r + 2) * (r + 2)) by (nonlinear_arith)
                requires
                    r >= 0,
                    n <= (r + 1) * (r + 1),
            ;
        }
    }
}

/// A non-negative `r` bracketed by the square-root inequalities is
/// `isqrt_spec(n)` itself.
pub proof fn lemma_isqrt_unique(n: int, r: int)
    requires
        n >= 0,
        r >= 0,
        r * r <= n,
        n < (r + 1) * (r + 1),
    ensures
        r == isqrt_spec(n),
{
    lemma_isqrt(n);
    let q = isqrt_spec(n);
    assert(r == q) by (nonlinear_arith)
        requires
            r >= 0,
            q >= 0,
            r * r <= n,
            n < (r + 1) * (r + 1),
            q * q <= n,
            n < (q + 1) * (q + 1),
    ;
}

/// Truncated division undoes multiplication by the divisor.
pub proof fn lemma_tdiv_mul_cancel(a: int, d: int)
    requires
        d > 0,
    ensures
        tdiv(a * d, d) == a,
{
    if a >= 0 {
        assert(a * d >= 0 && a * d == d * a) by (nonlinear_arith)
            requires
                a >= 0,
                d > 0,
        ;
        vstd::arithmetic::div_mod::lemma_div_multiples_vanish(a, d);
    } else {
        assert(a * d < 0 && -(a * d) == d * (-a)) by (nonlinear_arith)
            requires
                a < 0,
                d > 0,
        ;
        vstd::arithmetic::div_mod::lemma_div_multiples_vanish(-a, d);
    }
}

/// The floor square root is monotone.
pub proof fn lemma_isqrt_mono(m: int, n: int)
    requires
        0 <= m <= n,
    ensures
        isqrt_spec(m) <= isqrt_spec(n),
{
    lemma_isqrt(m);
    lemma_isqrt(n);
    let a = isqrt_spec(m);
    let b = isqrt_spec(n);
    assert(a <= b) by (nonlinear_arith)
        requires
            a >= 0,
            b >= 0,
            a * a <= m,
            m <= n,
            n < (b + 1) * (b + 1),
    ;
}

/// Floor of the square root, by bisection over the raw value.
fn isqrt_u128(n: u128) -> (r: u64)
    ensures
        r * r <= n,
        n < (r + 1) * (r + 1),
        r == isqrt_spec(n as int),
{
    let mut lo: u128 = 0;
    let mut hi: u128 = 0x1_0000_0000_0000_0000;
    assert(n < hi * hi) by (nonlinear_arith)
        requires
            n <= u128::MAX,
            hi == 0x1_0000_0000_0000_0000,
    ;
    while lo + 1 < hi
        invariant
            lo < hi <= 0x1_0000_0000_0000_0000,
            lo * lo <= n,
            n < hi * hi,
        decreases hi - lo,
    {
        let mid: u128 = lo + (hi - lo) / 2;
        assert(lo < mid < hi);
        assert(mid * mid <= u128::MAX) by (nonlinear_arith)
            requires
                mid <= 0xffff_ffff_ffff_ffff,
        ;
        if mid * mid <= n {
            lo = mid;
        } else {
            hi = mid;
        }
    }
    assert(hi == lo + 1);
    proof {
        lemma_isqrt_unique(n as int, lo as int);
    }
    lo as u64
}

/// Magnitude of an `i64` as a `u64`; total, including `i64::MIN`.
fn abs_u64(a: i64) -> (r: u64)
    ensures
        r == if a >= 0 {
            a as int
        } else {
            -(a as int)
        },
{
    if a >= 0 {
        a as u64
    } else {
        (-(a as i128)) as u64
    }
}

/// Truncated `p / d` on a wide value, negated when `flip` holds, or `None`
/// where the result leaves `i64`.
pub(crate) fn tdiv_i128(p: i128, d: u64, flip: bool) -> (r: Option<i64>)
    requires
        d > 0,
    ensures
        ({
            let g = if flip {
                -tdiv(p as int, d as int)
            } else {
                tdiv(p as int, d as int)
            };
            match r {
                Some(v) => v == g,
                None => !fits_raw(g),
            }
        }),
{
    let wide: u128 = if p >= 0 {
        p as u128
    } else {
        ((-1i128 - p) as u128) + 1
    };
    assert(wide == if p >= 0 {
        p as int
    } else {
        -(p as int)
    });
    let q: u128 = wide / (d as u128);
    let want_neg: bool = (p < 0) != flip;
    let ghost g: int = if flip {
        -tdiv(p as int, d as int)
    } else {
        tdiv(p as int, d as int)
    };
    proof {
        assert(wide == 0 ==> q == 0);
        assert(tdiv(p as int, d as int) == if p >= 0 {
            q as int
        } else {
            -(q as int)
        });
        assert(g == if q == 0 {
            0int
        } else if want_neg {
            -(q as int)
        } else {
            q as int
        });
    }
    if want_neg && q > 0 {
        if q > 0x8000_0000_0000_0000u128 {
            None
        } else {
            Some((-(q as i128)) as i64)
        }
    } else {
        if q > i64::MAX as u128 {
            None
        } else {
            Some(q as i64)
        }
    }
}

/// Truncated `a * b / d`, negated when `flip` holds, or `None` where the
/// result leaves `i64`.
fn mul_div_raw(a: i64, b: i64, d: u64, flip: bool) -> (r: Option<i64>)
    requires
        d > 0,
    ensures
        ({
            let g = if flip {
                -tdiv(a as int * b as int, d as int)
            } else {
                tdiv(a as int * b as int, d as int)
            };
            match r {
                Some(v) => v == g,
                None => !fits_raw(g),
            }
        }),
{
    proof {
        assert(-0x4000_0000_0000_0000_0000_0000_0000_0000int <= (a as int) * (b as int)
            <= 0x4000_0000_0000_0000_0000_0000_0000_0000int) by (nonlinear_arith)
            requires
                i64::MIN <= a <= i64::MAX,
                i64::MIN <= b <= i64::MAX,
        ;
    }
    let p: i128 = (a as i128) * (b as i128);
    tdiv_i128(p, d, flip)
}

/// A fixed-point number: the value `raw / SCALE`.
#[derive(Clone, Copy, PartialEq, Eq, Structural, Debug)]
pub struct Scalar {
    pub raw: i64,
}

impl View for Scalar {
    type V = int;

    open spec fn view(&self) -> int {
        self.raw as int
    }
}

impl Scalar {
    /// The scalar holding exactly the integer `v`.
    pub fn from_int(v: i64) -> (r: Scalar)
        requires
            fits_raw(v * SCALE),
        ensures
            r@ == v * SCALE,
    {
        proof {
            assert(v * SCALE == (v as int) * (SCALE as int));
        }
        Scalar { raw: v * SCALE }
    }

    /// The scalar with the given raw value, that is `raw / SCALE`.
    pub fn from_raw(raw: i64) -> (r: Scalar)
        ensures
            r@ == raw,
    {
        Scalar { raw }
    }

    /// Zero.
    pub fn zero() -> (r: Scalar)
        ensures
            r@ == 0,
    {
        Scalar { raw: 0 }
    }

    /// One.
    pub fn one() -> (r: Scalar)
        ensures
            r@ == SCALE,
    {
        Scalar { raw: SCALE }
    }

    pub fn add(self, rhs: Scalar) -> (r: Scalar)
        requires
            fits_raw(self@ + rhs@),
        ensures
            r@ == self@ + rhs@,
    {
        Scalar { raw: self.raw + rhs.raw }
    }

    pub fn sub(self, rhs: Scalar) -> (r: Scalar)
        requires
            fits_raw(self@ - rhs@),
        ensures
            r@ == self@ - rhs@,
    {
        Scalar { raw: self.raw - rhs.raw }
    }

    pub fn neg(self) -> (r: Scalar)
        requires
            fits_raw(-self@),
        ensures
            r@ == -self@,
    {
        Scalar { raw: -self.raw }
    }

    pub fn mul(self, rhs: Scalar) -> (r: Scalar)
        requires
            fits_raw(smul(self@, rhs@)),
        ensures
            r@ == smul(self@, rhs@),
    {
        let r = mul_div_raw(self.raw, rhs.raw, SCALE as u64, false);
        match r {
            Some(v) => Scalar { raw: v },
            None => {
                proof {
                    assert(false);
                }
                Scalar { raw: 0 }
            },
        }
    }

    /// Product, or `None` where the result leaves the raw range.
    pub fn checked_mul(self, rhs: Scalar) -> (r: Option<Scalar>)
        ensures
            match r {
                Some(v) => v@ == smul(self@, rhs@),
                None => !fits_raw(smul(self@, rhs@)),
            },
    {
        match mul_div_raw(self.raw, rhs.raw, SCALE as u64, false) {
            Some(v) => Some(Scalar { raw: v }),
            None => None,
        }
    }

    pub fn div(self, rhs: Scalar) -> (r: Scalar)
        requires
            rhs@ != 0,
            fits_raw(sdiv(self@, rhs@)),
        ensures
            r@ == sdiv(self@, rhs@),
    {
        let dm: u64 = abs_u64(rhs.raw);
        proof {
            if rhs@ > 0 {
                assert(sdiv(self@, rhs@) == tdiv(self@ * SCALE, dm as int));
            } else {
                assert(dm as int == -rhs@);
                assert(sdiv(self@, rhs@) == -tdiv(self@ * SCALE, dm as int));
            }
        }
        match mul_div_raw(self.raw, SCALE, dm, rhs.raw < 0) {
            Some(v) => Scalar { raw: v },
            None => {
                proof {
                    assert(false);
                }
                Scalar { raw: 0 }
            },
        }
    }

    /// Quotient, or `None` for a zero divisor or a result out of range.
    pub fn checked_div(self, rhs: Scalar) -> (r: Option<Scalar>)
        ensures
            match r {
                Some(v) => rhs@ != 0 && v@ == sdiv(self@, rhs@),
                None => rhs@ == 0 || !fits_raw(sdiv(self@, rhs@)),
            },
    {
        if rhs.raw == 0 {
            return None;
        }
        let dm: u64 = abs_u64(rhs.raw);
        proof {
            if rhs@ > 0 {
                assert(sdiv(self@, rhs@) == tdiv(self@ * SCALE, dm as int));
            } else {
                assert(dm as int == -rhs@);
                assert(sdiv(self@, rhs@) == -tdiv(self@ * SCALE, dm as int));
            }
        }
        match mul_div_raw(self.raw, SCALE, dm, rhs.raw < 0) {
            Some(v) => Some(Scalar { raw: v }),
            None => None,
        }
    }

    /// Floor square root at the working precision: the largest
    /// representable value whose square does not exceed `self`.
    pub fn sqrt(self) -> (r: Scalar)
        requires
            self@ >= 0,
        ensures
            r@ == isqrt_spec(self@ * SCALE),
            r@ >= 0,
    {
        let n: u128 = (self.raw as u128) * (SCALE as u128);
        let r: u64 = isqrt_u128(n);
        proof {
            lemma_isqrt(n as int);
            assert(r * r <= n);
            assert((r as int) < 0x1_0000_0000_0000_0000int ==> r as int <= i64::MAX) by (
            nonlinear_arith)
                requires
                    (r as int) * (r as int) <= n as int,
                    n as int <= 0x7fff_ffff_ffff_ffffint * 0x1_0000int,
            ;
        }
        Scalar { raw: r as i64 }
    }

    /// The smaller of two scalars.
    pub fn min_with(self, rhs: Scalar) -> (r: Scalar)
        ensures
            r@ == if self@ <= rhs@ {
                self@
            } else {
                rhs@
            },
    {
        if self.raw <= rhs.raw {
            self
        } else {
            rhs
        }
    }
}

} // verus!
