//! Fonts: what the layout asks of a font file, in whole numbers.
//!
//! The font file is parsed by `rusttype`, whose fonts keep a face of
//! `owned_ttf_parser`; that face is asked for the glyphs and their measures
//! in font units. What the two crates return is taken on trust and given a
//! name each; all scaling and rounding on top of it is computed and proved
//! here.

use crate::arith::{ceil_div, div_ceil, div_floor, floor_div};
use crate::geometry::ScreenRect;
use crate::key::SUBPIXEL_STEPS;
use owned_ttf_parser::{AsFaceRef, GlyphId};
use vstd::prelude::*;

verus! {

/// A parsed font of `rusttype`. It holds the font file's bytes, or borrows
/// them for `'a`.
#[verifier::external_type_specification]
#[verifier::external_body]
pub struct ExFont<'a>(rusttype::Font<'a>);

/// The bytes of the font file that a font was parsed from.
pub uninterp spec fn font_bytes(font: rusttype::Font<'static>) -> Seq<u8>;

/// Whether `rusttype::Font::try_from_vec` reads `data` as a font.
pub uninterp spec fn parses_as_font(data: Seq<u8>) -> bool;

/// What `Face::ascender` returns for the font file `data`: the height of the
/// ascent line above the baseline, in font units.
pub uninterp spec fn face_ascender(data: Seq<u8>) -> i16;

/// What `Face::descender` returns for the font file `data`: the height of the
/// descent line, in font units, negative below the baseline.
pub uninterp spec fn face_descender(data: Seq<u8>) -> i16;

/// What `Face::line_gap` returns for the font file `data`, in font units.
pub uninterp spec fn face_line_gap(data: Seq<u8>) -> i16;

/// What `Face::glyph_index` returns for the font file `data` and the
/// character `c`: the glyph that the font maps `c` to, if any.
pub uninterp spec fn face_glyph_index(data: Seq<u8>, c: char) -> Option<u16>;

/// What `Face::glyph_hor_advance` returns for the font file `data` and a
/// glyph: its horizontal advance in font units, if the font gives one.
pub uninterp spec fn face_hor_advance(data: Seq<u8>, glyph: u16) -> Option<u16>;

/// What `Face::glyph_bounding_box` returns for the font file `data` and a
/// glyph: `(x_min, y_min, x_max, y_max)` in font units with y pointing up, if
/// the glyph has an outline.
pub uninterp spec fn face_glyph_box(data: Seq<u8>, glyph: u16) -> Option<(i16, i16, i16, i16)>;

/// Calls `rusttype::Font::try_from_vec`. Trusted: it succeeds on the inputs
/// that `parses_as_font` names, and the font is one of the bytes `data`.
#[verifier::external_body]
fn parse_font(data: Vec<u8>) -> (r: Option<rusttype::Font<'static>>)
    ensures
        r is Some <==> parses_as_font(data@),
        r matches Some(font) ==> font_bytes(font) == data@,
{
    rusttype::Font::try_from_vec(data)
}

/// Calls `Face::ascender` on the font's face. Trusted: the result depends on
/// the font file alone.
#[verifier::external_body]
fn ascender(font: &rusttype::Font<'static>) -> (r: i16)
    ensures
        r == face_ascender(font_bytes(*font)),
{
    match font {
        rusttype::Font::Ref(face) => face.ascender(),
        rusttype::Font::Owned(face) => face.as_face_ref().ascender(),
    }
}

/// Calls `Face::descender` on the font's face. Trusted: the result depends
/// on the font file alone.
#[verifier::external_body]
fn descender(font: &rusttype::Font<'static>) -> (r: i16)
    ensures
        r == face_descender(font_bytes(*font)),
{
    match font {
        rusttype::Font::Ref(face) => face.descender(),
        rusttype::Font::Owned(face) => face.as_face_ref().descender(),
    }
}

/// Calls `Face::line_gap` on the font's face. Trusted: the result depends on
/// the font file alone.
#[verifier::external_body]
fn line_gap(font: &rusttype::Font<'static>) -> (r: i16)
    ensures
        r == face_line_gap(font_bytes(*font)),
{
    match font {
        rusttype::Font::Ref(face) => face.line_gap(),
        rusttype::Font::Owned(face) => face.as_face_ref().line_gap(),
    }
}

/// Calls `Face::glyph_index` on the font's face. Trusted: the result depends
/// on the font file and the character alone.
#[verifier::external_body]
fn glyph_index(font: &rusttype::Font<'static>, c: char) -> (r: Option<u16>)
    ensures
        r == face_glyph_index(font_bytes(*font), c),
{
    match font {
        rusttype::Font::Ref(face) => face.glyph_index(c).map(|g| g.0),
        rusttype::Font::Owned(face) => face.as_face_ref().glyph_index(c).map(|g| g.0),
    }
}

/// Calls `Face::glyph_hor_advance` on the font's face. Trusted: the result
/// depends on the font file and the glyph alone.
#[verifier::external_body]
fn hor_advance(font: &rusttype::Font<'static>, glyph: u16) -> (r: Option<u16>)
    ensures
        r == face_hor_advance(font_bytes(*font), glyph),
{
    match font {
        rusttype::Font::Ref(face) => face.glyph_hor_advance(GlyphId(glyph)),
        rusttype::Font::Owned(face) => face.as_face_ref().glyph_hor_advance(GlyphId(glyph)),
    }
}

/// Calls `Face::glyph_bounding_box` on the font's face and hands the four
/// sides out. Trusted: the result depends on the font file and the glyph
/// alone.
#[verifier::external_body]
fn glyph_box(font: &rusttype::Font<'static>, glyph: u16) -> (r: Option<(i16, i16, i16, i16)>)
    ensures
        r == face_glyph_box(font_bytes(*font), glyph),
{
    let sides = match font {
        rusttype::Font::Ref(face) => face.glyph_bounding_box(GlyphId(glyph)),
        rusttype::Font::Owned(face) => face.as_face_ref().glyph_bounding_box(GlyphId(glyph)),
    };
    sides.map(|b| (b.x_min, b.y_min, b.x_max, b.y_max))
}

/// The glyph for `c`: the one the font maps it to, or glyph 0, the font's
/// fallback, where it maps it to none.
pub open spec fn glyph_of(data: Seq<u8>, c: char) -> u16 {
    match face_glyph_index(data, c) {
        Some(g) => g,
        None => 0,
    }
}

/// The distance between the ascent and the descent line, in font units. A
/// scale of `s` pixels draws this distance `s` pixels tall.
pub open spec fn em_height(data: Seq<u8>) -> int {
    face_ascender(data) - face_descender(data)
}

/// The horizontal advance of `glyph` at `scale` pixels, in sub-pixel steps,
/// rounded down; 0 where the font gives no advance or has no height.
pub open spec fn advance_steps(data: Seq<u8>, glyph: u16, scale: u16) -> int {
    match face_hor_advance(data, glyph) {
        Some(a) => if em_height(data) > 0 {
            div_floor(a * scale * SUBPIXEL_STEPS, em_height(data))
        } else {
            0
        },
        None => 0,
    }
}

/// The distance from one baseline to the next at `scale` pixels, in sub-pixel
/// steps, rounded down: the font's height and its line gap, scaled.
pub open spec fn line_steps(data: Seq<u8>, scale: u16) -> int {
    if em_height(data) > 0 {
        div_floor(
            (em_height(data) + face_line_gap(data)) * scale * SUBPIXEL_STEPS,
            em_height(data),
        )
    } else {
        0
    }
}

/// `units` font units at `scale` pixels, shifted by `sub` sub-pixel steps,
/// as a fraction of a pixel: the numerator over `SUBPIXEL_STEPS * height`.
pub open spec fn shifted(units: int, scale: u16, sub: u8, height: int) -> int {
    units * scale * SUBPIXEL_STEPS + sub * height
}

/// The pixels that `glyph` touches at `scale` pixels when its origin lies
/// `sub_x`, `sub_y` sub-pixel steps right of and below a pixel corner: the
/// smallest pixel rectangle around its outline, relative to that corner, with
/// y pointing down. `None` where the glyph has no outline, the font has no
/// height or the rectangle is empty.
pub open spec fn glyph_bounds(data: Seq<u8>, glyph: u16, scale: u16, sub_x: u8, sub_y: u8) -> Option<
    ScreenRect,
> {
    let height = em_height(data);
    let den = SUBPIXEL_STEPS * height;
    match face_glyph_box(data, glyph) {
        Some((x_min, y_min, x_max, y_max)) => {
            let bounds = ScreenRect {
                min_x: div_floor(shifted(x_min as int, scale, sub_x, height), den) as i64,
                min_y: div_floor(shifted(-y_max, scale, sub_y, height), den) as i64,
                max_x: div_ceil(shifted(x_max as int, scale, sub_x, height), den) as i64,
                max_y: div_ceil(shifted(-y_min, scale, sub_y, height), den) as i64,
            };
            if height > 0 && !bounds.is_empty() {
                Some(bounds)
            } else {
                None
            }
        },
        None => None,
    }
}

/// The font could not be read.
#[derive(Clone, Copy, Debug, PartialEq, Eq)]
pub struct FontLoadError;

/// A font as a value: the number it goes by and the bytes of its file.
pub struct TypefaceView {
    pub id: u32,
    pub data: Seq<u8>,
}

/// A parsed font, read-only once made.
pub struct Typeface {
    id: u32,
    shapes: rusttype::Font<'static>,
}

impl View for Typeface {
    type V = TypefaceView;

    closed spec fn view(&self) -> TypefaceView {
        TypefaceView { id: self.id, data: font_bytes(self.shapes) }
    }
}

impl Typeface {
    /// Parses the font file `data`. `id` tells this font's glyphs from those
    /// of other fonts in one cache. Fails exactly where the parser does.
    pub fn new(id: u32, data: Vec<u8>) -> (r: Result<Typeface, FontLoadError>)
        ensures
            r is Ok <==> parses_as_font(data@),
            r matches Ok(font) ==> font@ == (TypefaceView { id, data: data@ }),
    {
        match parse_font(data) {
            Some(shapes) => Ok(Typeface { id, shapes }),
            None => Err(FontLoadError),
        }
    }

    /// The font as `rusttype` holds it, for those who draw its glyphs.
    pub fn shapes(&self) -> (shapes: &rusttype::Font<'static>)
        ensures
            font_bytes(*shapes) == self@.data,
    {
        &self.shapes
    }

    pub fn id(&self) -> (id: u32)
        ensures
            id == self@.id,
    {
        self.id
    }

    /// The glyph for the character `c`; glyph 0 for a character that the
    /// font does not map.
    pub fn get_glyph(&self, c: char) -> (g: u16)
        ensures
            g == glyph_of(self@.data, c),
    {
        match glyph_index(&self.shapes, c) {
            Some(g) => g,
            None => 0,
        }
    }

    /// The font's height in font units.
    fn height(&self) -> (h: i64)
        ensures
            h == em_height(self@.data),
            -0x1_0000 < h < 0x1_0000,
    {
        ascender(&self.shapes) as i64 - descender(&self.shapes) as i64
    }

    /// How far the pen moves right after `glyph` at `scale` pixels, in
    /// sub-pixel steps.
    pub fn advance(&self, glyph: u16, scale: u16) -> (r: i64)
        ensures
            r == advance_steps(self@.data, glyph, scale),
            0 <= r <= 0x4_0000_0000,
    {
        let height: i64 = self.height();
        match hor_advance(&self.shapes, glyph) {
            Some(a) => {
                if height > 0 {
                    assert(0 <= a * scale * 4 <= 0xFFFF * 0xFFFF * 4) by (nonlinear_arith)
                        requires
                            0 <= a <= 0xFFFF,
                            0 <= scale <= 0xFFFF,
                    ;
                    let num: i64 = a as i64 * scale as i64 * 4;
                    let q: i64 = floor_div(num, height);
                    proof {
                        vstd::arithmetic::div_mod::lemma_div_pos_is_pos(num as int, height as int);
                        vstd::arithmetic::div_mod::lemma_div_is_ordered_by_denominator(
                            num as int,
                            1,
                            height as int,
                        );
                    }
                    q
                } else {
                    0
                }
            },
            None => 0,
        }
    }

    /// How far the pen moves down at a line break at `scale` pixels, in
    /// sub-pixel steps.
    pub fn line_advance(&self, scale: u16) -> (r: i64)
        ensures
            r == line_steps(self@.data, scale),
            -0x10_0000_0000 <= r <= 0x10_0000_0000,
    {
        let height: i64 = self.height();
        if height > 0 {
            let span: i64 = height + line_gap(&self.shapes) as i64;
            assert(-0x8000 * 0xFFFF * 4 <= span * scale * 4 <= 0x1_8000 * 0xFFFF * 4) by (nonlinear_arith)
                requires
                    -0x8000 <= span <= 0x1_8000,
                    0 <= scale <= 0xFFFF,
            ;
            let num: i64 = span * scale as i64 * 4;
            let q: i64 = floor_div(num, height);
            proof {
                let n = num as int;
                let d = height as int;
                vstd::arithmetic::div_mod::lemma_fundamental_div_mod(n, d);
                assert(-0x10_0000_0000 <= n / d <= 0x10_0000_0000) by (nonlinear_arith)
                    requires
                        n == d * (n / d) + n % d,
                        0 <= n % d < d,
                        d >= 1,
                        -0x8_0000_0000 <= n <= 0x8_0000_0000,
                ;
            }
            q
        } else {
            0
        }
    }

    /// The pixel rectangle of `glyph` at `scale` pixels around an origin that
    /// lies `sub_x`, `sub_y` sub-pixel steps off a pixel corner, relative to
    /// that corner.
    pub fn bounds(&self, glyph: u16, scale: u16, sub_x: u8, sub_y: u8) -> (r: Option<ScreenRect>)
        ensures
            r == glyph_bounds(self@.data, glyph, scale, sub_x, sub_y),
            r matches Some(b) ==> {
                &&& -0x1_0000_0000 <= b.min_x < b.max_x <= 0x1_0000_0000
                &&& -0x1_0000_0000 <= b.min_y < b.max_y <= 0x1_0000_0000
            },
    {
        let height: i64 = self.height();
        match glyph_box(&self.shapes, glyph) {
            Some((x_min, y_min, x_max, y_max)) => {
                if height > 0 {
                    let den: i64 = 4 * height;
                    let left: i64 = Self::shift(x_min as i64, scale, sub_x, height);
                    let top: i64 = Self::shift(-(y_max as i64), scale, sub_y, height);
                    let right: i64 = Self::shift(x_max as i64, scale, sub_x, height);
                    let bottom: i64 = Self::shift(-(y_min as i64), scale, sub_y, height);
                    let bounds = ScreenRect {
                        min_x: floor_div(left, den),
                        min_y: floor_div(top, den),
                        max_x: ceil_div(right, den),
                        max_y: ceil_div(bottom, den),
                    };
                    proof {
                        lemma_pixel_range(left as int, height as int);
                        lemma_pixel_range(top as int, height as int);
                        lemma_pixel_range(right as int, height as int);
                        lemma_pixel_range(bottom as int, height as int);
                    }
                    if bounds.has_no_area() {
                        None
                    } else {
                        Some(bounds)
                    }
                } else {
                    None
                }
            },
            None => None,
        }
    }

    /// `units` scaled and shifted, as `shifted` says.
    fn shift(units: i64, scale: u16, sub: u8, height: i64) -> (r: i64)
        requires
            -0x8000 <= units <= 0x8000,
            0 < height < 0x1_0000,
        ensures
            r == shifted(units as int, scale, sub, height as int),
            -0x2_0000_0000 - 0x100_0000 <= r <= 0x2_0000_0000 + 0x100_0000,
    {
        assert(-0x8000 * 0xFFFF * 4 <= units * scale * 4 <= 0x8000 * 0xFFFF * 4) by (nonlinear_arith)
            requires
                -0x8000 <= units <= 0x8000,
                0 <= scale <= 0xFFFF,
        ;
        assert(0 <= sub * height <= 0xFF * 0xFFFF) by (nonlinear_arith)
            requires
                0 <= sub <= 0xFF,
                0 < height <= 0xFFFF,
        ;
        units * scale as i64 * 4 + sub as i64 * height
    }
}

/// A shifted coordinate divided by its denominator stays within the pixels
/// that 32 bits can count, rounded either way.
proof fn lemma_pixel_range(n: int, height: int)
    requires
        0 < height,
        -0x2_0000_0000 - 0x100_0000 <= n <= 0x2_0000_0000 + 0x100_0000,
    ensures
        -0x1_0000_0000 <= div_floor(n, 4 * height) <= 0x1_0000_0000,
        -0x1_0000_0000 <= div_ceil(n, 4 * height) <= 0x1_0000_0000,
{
    let d = 4 * height;
    vstd::arithmetic::div_mod::lemma_fundamental_div_mod(n, d);
    vstd::arithmetic::div_mod::lemma_fundamental_div_mod(-n, d);
    assert(-0x1_0000_0000 <= n / d <= 0x1_0000_0000) by (nonlinear_arith)
        requires
            n == d * (n / d) + n % d,
            0 <= n % d < d,
            d >= 4,
            -0x2_0000_0000 - 0x100_0000 <= n <= 0x2_0000_0000 + 0x100_0000,
    ;
    assert(-0x1_0000_0000 <= (-n) / d <= 0x1_0000_0000) by (nonlinear_arith)
        requires
            -n == d * ((-n) / d) + (-n) % d,
            0 <= (-n) % d < d,
            d >= 4,
            -0x2_0000_0000 - 0x100_0000 <= n <= 0x2_0000_0000 + 0x100_0000,
    ;
}

} // verus!
