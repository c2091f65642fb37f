use vstd::prelude::*;

verus! {

/// Sample points per tile pixel: a 4 by 4 grid.
pub const SAMPLES: u8 = 16;

/// The alpha of a tile pixel of which `covered` of the 16 sample points lie
/// inside the outline: 255 for an empty pixel, 0 for a full one, and
/// `255 * (16 - covered) / 16` rounded to the nearest integer in between,
/// halves rounded up.
pub fn coverage_alpha(covered: u8) -> (alpha: u8)
    requires
        covered <= SAMPLES,
    ensures
        16 * alpha <= 255 * (16 - covered) + 8 < 16 * alpha + 16,
        covered == 0 ==> alpha == 255,
        covered == SAMPLES ==> alpha == 0,
{
    let uncovered: u32 = (SAMPLES - covered) as u32;
    let a: u32 = (255 * uncovered + 8) / 16;
    a as u8
}

/// The colour a tile pixel of alpha `alpha` is shown in: grey levels of
/// green, `(alpha, alpha / 2 + 127, alpha)`.
pub fn alpha_shade(alpha: u8) -> (rgb: (u8, u8, u8))
    ensures
        rgb == (alpha, (alpha / 2 + 127) as u8, alpha),
        rgb.1 >= 127,
{
    (alpha, alpha / 2 + 127, alpha)
}

/// Each further covered sample point lowers the alpha, never raises it.
pub proof fn lemma_coverage_alpha_decreasing(c: u8, d: u8, a: u8, b: u8)
    requires
        c < d <= SAMPLES,
        16 * a <= 255 * (16 - c) + 8 < 16 * a + 16,
        16 * b <= 255 * (16 - d) + 8 < 16 * b + 16,
    ensures
        b < a,
{
}

} // verus!
