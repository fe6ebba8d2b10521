//! Colors and their conversion to 8-bit channels.
use crate::fixed::{floor_sqrt, isqrt, ONE};
use crate::utils::Interval;
use crate::vec3::Vec3;
use vstd::prelude::*;

verus! {

/// A linear RGB color, one fixed-point value per channel.
pub type Color = Vec3;

/// The largest channel value kept before quantizing (0.999), so that a full
/// channel maps to 255 and never to 256.
pub const CHANNEL_CAP: i64 = 65470;

/// A quantized pixel: one byte per channel.
#[derive(Clone, Copy, Debug, PartialEq, Eq, Structural)]
pub struct Rgb {
    pub r: u8,
    pub g: u8,
    pub b: u8,
}

/// Gamma 2: the square root of a fixed-point value, as a fixed-point value.
pub open spec fn gamma_of(c: int) -> int {
    floor_sqrt(c * ONE)
}

/// The byte for a channel holding the sum `c` of `spp` samples: 0 for a
/// sum of at most 0, otherwise the mean, gamma-corrected, clamped to
/// `[0, 0.999]`, times 256, rounded down.
pub open spec fn channel_byte(c: int, spp: int) -> int {
    if c <= 0 {
        0
    } else {
        let g = gamma_of(c / spp);
        let clamped = if g > CHANNEL_CAP {
            CHANNEL_CAP as int
        } else {
            g
        };
        (clamped * 256) / (ONE as int)
    }
}

pub open spec fn rgb_of(c: Color, spp: int) -> Rgb {
    Rgb {
        r: channel_byte(c.x as int, spp) as u8,
        g: channel_byte(c.y as int, spp) as u8,
        b: channel_byte(c.z as int, spp) as u8,
    }
}

/// The square root of a non-negative fixed-point value.
pub fn linear_to_gamma(linear_component: i64) -> (r: i64)
    requires
        0 <= linear_component,
    ensures
        r == gamma_of(linear_component as int),
        0 <= r,
{
    proof {
        assert(linear_component * ONE <= i64::MAX * ONE) by (nonlinear_arith)
            requires
                0 <= linear_component <= i64::MAX,
        ;
    }
    isqrt(linear_component as i128 * ONE as i128) as i64
}

fn channel(c: i64, spp: i32) -> (r: u8)
    requires
        spp > 0,
    ensures
        r == channel_byte(c as int, spp as int),
        c <= 0 ==> r == 0,
{
    if c <= 0 {
        return 0;
    }
    let interval = Interval::with(0, CHANNEL_CAP);
    proof {
        vstd::arithmetic::div_mod::lemma_div_is_ordered(0, c as int, spp as int);
        vstd::arithmetic::div_mod::lemma_div_by_multiple(0, spp as int);
    }
    let g = linear_to_gamma(c / spp as i64);
    let clamped = interval.clamp(g);
    proof {
        vstd::arithmetic::div_mod::lemma_div_is_ordered(clamped * 256, CHANNEL_CAP * 256, ONE as int);
    }
    ((clamped * 256) / ONE) as u8
}

/// Quantizes the sum of `samples_per_pixel` sample colors to a pixel. A
/// channel sum of at most 0 gives 0; a mean of at least 1.0 gives 255.
pub fn write_color(color: Color, samples_per_pixel: i32) -> (r: Rgb)
    requires
        samples_per_pixel > 0,
    ensures
        r == rgb_of(color, samples_per_pixel as int),
{
    Rgb {
        r: channel(color.x, samples_per_pixel),
        g: channel(color.y, samples_per_pixel),
        b: channel(color.z, samples_per_pixel),
    }
}

/// A channel whose mean is at least 1.0 is quantized to 255.
pub proof fn lemma_full_channel_is_255(c: int, spp: int)
    requires
        spp > 0,
        c >= spp * ONE,
    ensures
        channel_byte(c, spp) == 255,
{
    vstd::arithmetic::div_mod::lemma_div_is_ordered(spp * ONE, c, spp);
    assert((spp * ONE) / spp == ONE) by {
        vstd::arithmetic::div_mod::lemma_div_by_multiple(ONE as int, spp);
        assert(spp * ONE == ONE * spp) by (nonlinear_arith);
    }
    let m = c / spp;
    assert(m * ONE >= ONE * ONE) by (nonlinear_arith)
        requires
            m >= ONE,
    ;
    crate::fixed::lemma_floor_sqrt_dominates(m * ONE, ONE as int);
    assert((CHANNEL_CAP * 256) / (ONE as int) == 255);
}

} // verus!
