//! The identity under which a rasterized glyph is cached.

use vstd::prelude::*;

verus! {

/// The number of sub-pixel positions per pixel, along each axis, that are
/// rasterized separately.
pub const SUBPIXEL_STEPS: u8 = 4;

/// What decides how a glyph's bitmap looks: the font, the glyph, the pixel
/// height it is drawn at, and the sub-pixel offset of its origin, in steps of
/// `1 / SUBPIXEL_STEPS` of a pixel. Two keys are equal when all fields are.
#[derive(Clone, Copy, Debug, PartialEq, Eq, Hash, Structural)]
pub struct GlyphKey {
    pub font_id: u32,
    pub glyph_id: u16,
    pub scale: u16,
    pub sub_x: u8,
    pub sub_y: u8,
}

impl GlyphKey {
    /// Both sub-pixel offsets are less than a pixel.
    pub open spec fn wf(self) -> bool {
        self.sub_x < SUBPIXEL_STEPS && self.sub_y < SUBPIXEL_STEPS
    }

    /// The key for a glyph drawn with its origin on a pixel corner.
    pub fn new(font_id: u32, glyph_id: u16, scale: u16) -> (key: GlyphKey)
        ensures
            key == (GlyphKey { font_id, glyph_id, scale, sub_x: 0, sub_y: 0 }),
            key.wf(),
    {
        GlyphKey { font_id, glyph_id, scale, sub_x: 0, sub_y: 0 }
    }
}

} // verus!
