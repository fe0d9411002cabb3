//! Drawing glyph coverage into a text texture: each pixel holds a red byte and an alpha
//! byte, and a glyph covering it blends both towards full.
use vstd::prelude::*;

verus! {

/// The pixel after a glyph covers it by `scale`/256: red blends towards 0xff, alpha towards
/// the coverage itself.
pub open spec fn blended(pixel: u16, scale: u32) -> u16 {
    let rest = (256 - scale) as u32;
    let new_alpha = (scale * 255 / 256) as u32;
    let red = ((pixel >> 8u16) as u32 * rest + 0xff * scale) as u32;
    let alpha = ((pixel & 0xffu16) as u32 * rest + new_alpha * scale) as u32;
    (red | (alpha >> 8u32)) as u16
}

/// Blends `pixel` with a glyph's coverage `scale`/256, for `scale` up to 256.
pub fn blend_pixel(pixel: u16, scale: u32) -> (result: u16)
    requires
        scale <= 256,
    ensures
        result == blended(pixel, scale),
{
    let one_minus_scale = 256 - scale;
    let new_alpha = scale * 255 / 256;
    proof {
        assert((pixel >> 8u16) as u32 <= 255) by (bit_vector);
        assert((pixel & 0xffu16) as u32 <= 255) by (bit_vector);
        assert(((pixel >> 8u16) as u32) * one_minus_scale <= 255 * 256) by (nonlinear_arith)
            requires
                (pixel >> 8u16) as u32 <= 255,
                one_minus_scale <= 256,
        ;
        assert(((pixel & 0xffu16) as u32) * one_minus_scale <= 255 * 256) by (nonlinear_arith)
            requires
                (pixel & 0xffu16) as u32 <= 255,
                one_minus_scale <= 256,
        ;
        assert(new_alpha * scale <= 255 * 256) by (nonlinear_arith)
            requires
                new_alpha <= 255,
                scale <= 256,
        ;
    }
    let red = u32::from(pixel >> 8) * one_minus_scale + 0xff * scale;
    let alpha = u32::from(pixel & 0xff) * one_minus_scale + new_alpha * scale;
    (red | (alpha >> 8)) as u16
}

/// A glyph that does not cover a pixel leaves it as it was.
pub proof fn lemma_blend_uncovered(pixel: u16)
    ensures
        blended(pixel, 0) == pixel,
{
    assert(((((pixel >> 8u16) as u32 * 256) as u32) | ((((pixel & 0xffu16) as u32 * 256) as u32)
        >> 8u32)) as u16 == pixel) by (bit_vector);
}

/// A glyph that covers a pixel fully makes it full red and full alpha, whatever it was.
pub proof fn lemma_blend_covered(pixel: u16)
    ensures
        blended(pixel, 256) == 0xffffu16,
{
    let hi = (pixel >> 8u16) as u32;
    let lo = (pixel & 0xffu16) as u32;
    assert(hi * 0 == 0 && lo * 0 == 0);
    assert((256u32 * 255 / 256) as u32 == 255u32);
    assert(blended(pixel, 256) == (((0xffu32 * 256) as u32) | (((255u32 * 256) as u32) >> 8u32)) as u16);
    assert((((0xffu32 * 256) as u32) | (((255u32 * 256) as u32) >> 8u32)) as u16 == 0xffffu16)
        by (bit_vector);
}

/// Blends the pixel at column `x` and row `y` of a `width` by `height` buffer, stored row
/// after row, with coverage `scale`/256; pixels outside the buffer are left alone.
pub fn draw_pixel(buffer: &mut Vec<u16>, width: u32, height: u32, x: u32, y: u32, scale: u32)
    requires
        old(buffer)@.len() == width * height,
        width * height <= u32::MAX,
        scale <= 256,
    ensures
        x < width && y < height ==> final(buffer)@ == old(buffer)@.update(
            y * width + x,
            blended(old(buffer)@[y * width + x], scale),
        ),
        !(x < width && y < height) ==> final(buffer)@ == old(buffer)@,
{
    if x < width && y < height {
        proof {
            assert(y * width + x < width * height) by (nonlinear_arith)
                requires
                    x < width,
                    y < height,
            ;
        }
        let index = (y * width + x) as usize;
        let pixel = buffer[index];
        buffer.set(index, blend_pixel(pixel, scale));
    }
}

} // verus!
