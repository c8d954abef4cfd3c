//! Colors and their quantization for the text image format.
//!
//! A color is a vector of radiance components. For output each component is
//! gamma-corrected by a square root, clamped just below one, and mapped to
//! an integer channel in `[0, 255]`.

use crate::interval::{clamp_spec, Interval};
use crate::scalar::{isqrt_spec, lemma_isqrt, lemma_isqrt_mono, tdiv, Scalar, SCALE};
use crate::vec3::Vec3;
use vstd::prelude::*;
use vstd::string::*;

verus! {

pub type Color = Vec3;

/// The quantizer's clamp bound: the working-precision value just below
/// `0.999`.
pub const QUANT_CLAMP_MAX: i64 = 65470;

/// Gamma correction: the floor square root of a non-negative component.
pub open spec fn gamma_spec(x: int) -> int {
    if x > 0 {
        isqrt_spec(x * SCALE)
    } else {
        0
    }
}

/// The output channel of one component: gamma-corrected, clamped, and
/// scaled to `[0, 255]` with truncation.
pub open spec fn channel_spec(x: int) -> int {
    tdiv(256 * clamp_spec(0, QUANT_CLAMP_MAX as int, gamma_spec(x)), SCALE as int)
}

/// The decimal digit character for `0 <= d <= 9`.
pub open spec fn digit_char(d: int) -> char {
    if d == 0 {
        '0'
    } else if d == 1 {
        '1'
    } else if d == 2 {
        '2'
    } else if d == 3 {
        '3'
    } else if d == 4 {
        '4'
    } else if d == 5 {
        '5'
    } else if d == 6 {
        '6'
    } else if d == 7 {
        '7'
    } else if d == 8 {
        '8'
    } else {
        '9'
    }
}

/// The decimal rendering of `0 <= n <= 999`, without leading zeros.
pub open spec fn dec_chars(n: int) -> Seq<char> {
    if n < 10 {
        seq![digit_char(n)]
    } else if n < 100 {
        seq![digit_char(n / 10), digit_char(n % 10)]
    } else {
        seq![digit_char(n / 100), digit_char((n / 10) % 10), digit_char(n % 10)]
    }
}

/// The image line of one pixel: three space-separated channels.
pub open spec fn ppm_chars(c: (int, int, int)) -> Seq<char> {
    dec_chars(channel_spec(c.0)) + seq![' '] + dec_chars(channel_spec(c.1)) + seq![' ']
        + dec_chars(channel_spec(c.2))
}

/// Gamma correction of one component.
fn linear_to_gamma(v: Scalar) -> (r: Scalar)
    ensures
        r@ == gamma_spec(v@),
        r@ >= 0,
{
    if v.raw > 0 {
        proof {
            lemma_isqrt(v@ * SCALE);
        }
        v.sqrt()
    } else {
        Scalar { raw: 0 }
    }
}

/// Channels stay in the byte range.
pub proof fn lemma_channel_in_range(x: int)
    ensures
        0 <= channel_spec(x) <= 255,
{
    if x > 0 {
        lemma_isqrt(x * SCALE);
    }
    let c = clamp_spec(0, QUANT_CLAMP_MAX as int, gamma_spec(x));
    assert(0 <= c <= QUANT_CLAMP_MAX);
    crate::vec3::lemma_tdiv_bound(256 * c, 256 * (QUANT_CLAMP_MAX as int), SCALE as int);
    crate::vec3::lemma_tdiv_mono(256 * c, 16760320, SCALE as int);
    assert(16760320 == 65536 * 255 + 48640) by (nonlinear_arith);
    vstd::arithmetic::div_mod::lemma_div_multiples_vanish_fancy(255, 48640, 65536);
    assert(tdiv(16760320, SCALE as int) == 255);
}

/// A zero component maps to channel zero.
pub proof fn lemma_channel_zero()
    ensures
        channel_spec(0) == 0,
{
    assert(clamp_spec(0, QUANT_CLAMP_MAX as int, gamma_spec(0)) == 0);
    assert(tdiv(0, SCALE as int) == 0);
}

/// A component at or above the clamp bound saturates to channel 255.
pub proof fn lemma_channel_saturates(x: int)
    requires
        x >= QUANT_CLAMP_MAX,
    ensures
        channel_spec(x) == 255,
{
    lemma_isqrt(x * SCALE);
    let g = isqrt_spec(x * SCALE);
    assert(x * SCALE >= 65470 * 65536) by (nonlinear_arith)
        requires
            x >= 65470,
            SCALE as int == 65536,
    ;
    assert(g >= 65470) by (nonlinear_arith)
        requires
            g >= 0,
            x * SCALE < (g + 1) * (g + 1),
            x * SCALE >= 65470 * 65536,
    ;
    assert(gamma_spec(x) == g);
    assert(clamp_spec(0, QUANT_CLAMP_MAX as int, g) == QUANT_CLAMP_MAX);
    assert(16760320 == 65536 * 255 + 48640) by (nonlinear_arith);
    vstd::arithmetic::div_mod::lemma_div_multiples_vanish_fancy(255, 48640, 65536);
    assert(channel_spec(x) == tdiv(16760320, SCALE as int));
}

/// The channel is monotone in the component.
pub proof fn lemma_channel_monotone(x: int, y: int)
    requires
        x <= y,
    ensures
        channel_spec(x) <= channel_spec(y),
{
    if x > 0 {
        assert(x * SCALE <= y * SCALE) by (nonlinear_arith)
            requires
                0 < x <= y,
                SCALE as int > 0,
        ;
        assert(0 <= x * SCALE) by (nonlinear_arith)
            requires
                x > 0,
                SCALE as int > 0,
        ;
        lemma_isqrt_mono(x * SCALE, y * SCALE);
    } else if y > 0 {
        lemma_isqrt(y * SCALE);
    }
    let cx = clamp_spec(0, QUANT_CLAMP_MAX as int, gamma_spec(x));
    let cy = clamp_spec(0, QUANT_CLAMP_MAX as int, gamma_spec(y));
    assert(cx <= cy);
    crate::vec3::lemma_tdiv_mono(256 * cx, 256 * cy, SCALE as int);
}

/// One output channel of a component.
fn channel_of(v: Scalar) -> (r: u8)
    ensures
        r as int == channel_spec(v@),
{
    proof {
        lemma_channel_in_range(v@);
    }
    let g = linear_to_gamma(v);
    let c = Interval::new(Scalar { raw: 0 }, Scalar { raw: QUANT_CLAMP_MAX }).clamp(g);
    let scaled: u64 = (256 * c.raw) as u64;
    let q: u64 = scaled / 65536;
    proof {
        assert(0 <= c.raw <= QUANT_CLAMP_MAX);
        assert(scaled == 256 * (c.raw as int));
        assert(q == tdiv(256 * (c.raw as int), SCALE as int));
    }
    q as u8
}

/// The digit character of `0 <= d <= 9` as a one-character piece of text.
fn digit_str(d: u8) -> (r: &'static str)
    requires
        d <= 9,
    ensures
        r@ == seq![digit_char(d as int)],
{
    proof {
        reveal_strlit("0");
        reveal_strlit("1");
        reveal_strlit("2");
        reveal_strlit("3");
        reveal_strlit("4");
        reveal_strlit("5");
        reveal_strlit("6");
        reveal_strlit("7");
        reveal_strlit("8");
        reveal_strlit("9");
    }
    let r = if d == 0 {
        "0"
    } else if d == 1 {
        "1"
    } else if d == 2 {
        "2"
    } else if d == 3 {
        "3"
    } else if d == 4 {
        "4"
    } else if d == 5 {
        "5"
    } else if d == 6 {
        "6"
    } else if d == 7 {
        "7"
    } else if d == 8 {
        "8"
    } else {
        "9"
    };
    proof {
        assert(r@ =~= seq![digit_char(d as int)]);
    }
    r
}

/// Appends the decimal rendering of `n` to the text.
fn push_decimal(out: &mut String, n: u8)
    ensures
        final(out)@ == old(out)@ + dec_chars(n as int),
{
    if n >= 100 {
        out.append(digit_str(n / 100));
        out.append(digit_str((n / 10) % 10));
        out.append(digit_str(n % 10));
        proof {
            assert(final(out)@ =~= old(out)@ + dec_chars(n as int));
        }
    } else if n >= 10 {
        out.append(digit_str(n / 10));
        out.append(digit_str(n % 10));
        proof {
            assert(final(out)@ =~= old(out)@ + dec_chars(n as int));
        }
    } else {
        out.append(digit_str(n));
        proof {
            assert(final(out)@ =~= old(out)@ + dec_chars(n as int));
        }
    }
}

impl Color {
    /// The black color: no radiance in any component.
    pub fn black() -> (r: Color)
        ensures
            r@ == (0int, 0int, 0int),
    {
        Vec3 { x: Scalar { raw: 0 }, y: Scalar { raw: 0 }, z: Scalar { raw: 0 } }
    }

    /// The white color: full radiance in every component.
    pub fn white() -> (r: Color)
        ensures
            r@ == (SCALE as int, SCALE as int, SCALE as int),
    {
        Vec3 { x: Scalar { raw: SCALE }, y: Scalar { raw: SCALE }, z: Scalar { raw: SCALE } }
    }

    /// The image line of this pixel: three space-separated channels, each
    /// gamma-corrected, clamped and quantized to `[0, 255]`.
    pub fn to_ppm(self) -> (r: String)
        ensures
            r@ == ppm_chars(self@),
    {
        proof {
            reveal_strlit(" ");
        }
        let rc = channel_of(self.x);
        let gc = channel_of(self.y);
        let bc = channel_of(self.z);
        let mut out = String::new();
        push_decimal(&mut out, rc);
        out.append(" ");
        push_decimal(&mut out, gc);
        out.append(" ");
        push_decimal(&mut out, bc);
        proof {
            assert(" "@ =~= seq![' ']);
            assert(out@ =~= ppm_chars(self@));
        }
        out
    }
}

} // verus!
