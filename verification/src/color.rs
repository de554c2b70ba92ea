//! Colors and alpha compositing.
//!
//! Channels are 8-bit; alpha blending is the standard "source over
//! destination" rule, carried out in integer arithmetic with truncating
//! division and channels saturated at 255.

use vstd::prelude::*;
use vstd::arithmetic::div_mod::*;
use crate::fixed::{abs_i, div_t, lemma_div_t_shrink, lemma_mul_bound};

verus! {

/// An opaque surface color.
#[derive(Clone, Copy, Debug, PartialEq, Eq, Structural)]
pub struct Rgb8 {
    pub r: u8,
    pub g: u8,
    pub b: u8,
}

/// A color with coverage: alpha 0 is fully transparent, 255 fully opaque.
#[derive(Clone, Copy, Debug, PartialEq, Eq, Structural)]
pub struct Rgba8 {
    pub r: u8,
    pub g: u8,
    pub b: u8,
    pub a: u8,
}

/// Fully transparent black: the terminal color of an exhausted or unlit ray.
pub open spec fn transparent_black() -> Rgba8 {
    Rgba8 { r: 0, g: 0, b: 0, a: 0 }
}

pub open spec fn min_i(a: int, b: int) -> int {
    if a <= b {
        a
    } else {
        b
    }
}

/// The blended alpha of `src` over `dst`.
pub open spec fn blend_alpha(sa: int, da: int) -> int {
    sa + div_t(da * (255 - sa), 255)
}

/// One channel of `src` over `dst`: the coverage-weighted average of the two
/// channels, truncated, saturated at 255. Zero total coverage keeps the
/// destination channel, so blending a fully transparent source over a fully
/// transparent destination is the identity.
pub open spec fn blend_channel(cs: int, cd: int, sa: int, da: int) -> int {
    let oa = blend_alpha(sa, da);
    if oa == 0 {
        cd
    } else {
        min_i(255, div_t(cs * sa * 255 + cd * da * (255 - sa), oa * 255))
    }
}

/// `src` composited over `dst`.
pub open spec fn blend_over_spec(dst: Rgba8, src: Rgba8) -> Rgba8 {
    let sa = src.a as int;
    let da = dst.a as int;
    Rgba8 {
        r: blend_channel(src.r as int, dst.r as int, sa, da) as u8,
        g: blend_channel(src.g as int, dst.g as int, sa, da) as u8,
        b: blend_channel(src.b as int, dst.b as int, sa, da) as u8,
        a: blend_alpha(sa, da) as u8,
    }
}

/// The blended alpha stays a channel value.
pub proof fn lemma_blend_alpha_range(sa: int, da: int)
    requires
        0 <= sa <= 255,
        0 <= da <= 255,
    ensures
        0 <= blend_alpha(sa, da) <= 255,
        sa <= blend_alpha(sa, da),
{
    assert(da * (255 - sa) <= 255 * (255 - sa)) by (nonlinear_arith)
        requires
            da <= 255,
            255 - sa >= 0,
    ;
    assert(da * (255 - sa) >= 0) by (nonlinear_arith)
        requires
            da >= 0,
            255 - sa >= 0,
    ;
    lemma_div_t_shrink(da * (255 - sa), 255, 255 - sa);
    crate::fixed::lemma_div_t_mul_le(da * (255 - sa), 255);
}

impl Rgba8 {
    pub fn new(r: u8, g: u8, b: u8, a: u8) -> (c: Rgba8)
        ensures
            c == (Rgba8 { r, g, b, a }),
    {
        Rgba8 { r, g, b, a }
    }

    /// Composites `src` over `self`, in place.
    pub fn blend(&mut self, src: &Rgba8)
        ensures
            *final(self) == blend_over_spec(*old(self), *src),
    {
        let sa: u32 = src.a as u32;
        let da: u32 = self.a as u32;
        proof {
            lemma_blend_alpha_range(sa as int, da as int);
            assert((da as int) * (255 - sa as int) >= 0) by (nonlinear_arith)
                requires
                    da as int >= 0,
                    255 - sa as int >= 0,
            ;
            assert((da as int) * (255 - sa as int) <= 65025) by (nonlinear_arith)
                requires
                    0 <= da as int <= 255,
                    0 <= 255 - sa as int <= 255,
            ;
        }
        let oa: u32 = sa + da * (255 - sa) / 255;
        let r = blend_channel_exec(src.r, self.r, sa, da, oa);
        let g = blend_channel_exec(src.g, self.g, sa, da, oa);
        let b = blend_channel_exec(src.b, self.b, sa, da, oa);
        self.r = r;
        self.g = g;
        self.b = b;
        self.a = oa as u8;
    }
}

/// One channel of the blend; `oa` must be the blended alpha of `sa` and `da`.
fn blend_channel_exec(cs: u8, cd: u8, sa: u32, da: u32, oa: u32) -> (r: u8)
    requires
        sa <= 255,
        da <= 255,
        oa as int == blend_alpha(sa as int, da as int),
    ensures
        r as int == blend_channel(cs as int, cd as int, sa as int, da as int),
{
    proof {
        lemma_blend_alpha_range(sa as int, da as int);
        lemma_mul_bound(cs as int, sa as int, 255, 255);
        lemma_mul_bound(cd as int, da as int, 255, 255);
        lemma_mul_bound((cd as int) * (da as int), 255 - sa as int, 65025, 255);
    }
    if oa == 0 {
        cd
    } else {
        let num: u32 = (cs as u32) * sa * 255 + (cd as u32) * da * (255 - sa);
        let q: u32 = num / (oa * 255);
        if q > 255 {
            255u8
        } else {
            q as u8
        }
    }
}


/// A fully transparent source leaves the destination untouched: alpha-over
/// with source alpha zero is the identity, whatever the destination's own
/// coverage.
pub proof fn lemma_blend_transparent_src_identity(dst: Rgba8, src: Rgba8)
    requires
        src.a == 0,
    ensures
        blend_over_spec(dst, src) == dst,
{
    let da = dst.a as int;
    assert(da * 255 == 255 * da) by (nonlinear_arith);
    lemma_div_by_multiple(da, 255);
    assert(blend_alpha(0, da) == da);
    if da != 0 {
        lemma_channel_identity(src.r as int, dst.r as int, da);
        lemma_channel_identity(src.g as int, dst.g as int, da);
        lemma_channel_identity(src.b as int, dst.b as int, da);
    }
}

/// With source alpha zero and positive destination coverage, one blended
/// channel reduces to the destination channel.
proof fn lemma_channel_identity(cs: int, cd: int, da: int)
    requires
        1 <= da <= 255,
        0 <= cd <= 255,
    ensures
        blend_channel(cs, cd, 0, da) == cd,
{
    assert(da * 255 == 255 * da) by (nonlinear_arith);
    lemma_div_by_multiple(da, 255);
    assert(blend_alpha(0, da) == da);
    assert(cs * 0 * 255 == 0) by (nonlinear_arith);
    assert(cd * da * 255 == cd * (da * 255)) by (nonlinear_arith);
    lemma_div_by_multiple(cd, da * 255);
    assert(cd * (da * 255) == (da * 255) * cd) by (nonlinear_arith);
}

} // verus!
