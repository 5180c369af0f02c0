//! The layout engine: from a string and a starting point to glyphs with
//! their places on the screen, by the glyphs' advances alone.

use crate::arith::{div_floor, floor_div, floor_mod, mod_floor};
use crate::font::{advance_steps, glyph_bounds, glyph_of, line_steps, Typeface, TypefaceView};
use crate::geometry::ScreenRect;
use crate::key::{GlyphKey, SUBPIXEL_STEPS};
use vstd::prelude::*;

verus! {

/// How far from the origin the pen goes, in sub-pixel steps: it stops there.
pub const PEN_LIMIT: i64 = 0x100_0000_0000;

/// A glyph of the text: what to rasterize, and the screen pixels it covers.
/// A glyph without a shape covers none: its rectangle is empty, at the
/// pixel of its origin.
#[derive(Clone, Copy, Debug, PartialEq, Eq, Structural)]
pub struct PositionedGlyph {
    pub key: GlyphKey,
    pub bounds: ScreenRect,
}

/// The pen: the origin of the next glyph, in sub-pixel steps, x to the right
/// and y down.
#[derive(Clone, Copy, Debug, PartialEq, Eq, Structural)]
pub struct Pen {
    pub x: i64,
    pub y: i64,
}

/// `v`, held within `PEN_LIMIT` of 0.
pub open spec fn clamp_pen(v: int) -> i64 {
    if v < -PEN_LIMIT {
        (-PEN_LIMIT) as i64
    } else if v > PEN_LIMIT {
        PEN_LIMIT
    } else {
        v as i64
    }
}

/// The pen on the pixel corner `(origin_x, origin_y)`.
pub open spec fn pen_start(origin_x: i32, origin_y: i32) -> Pen {
    Pen { x: (origin_x * SUBPIXEL_STEPS) as i64, y: (origin_y * SUBPIXEL_STEPS) as i64 }
}

/// The pen after the character `c`: a line break takes it back to the
/// origin's column and one line down; any other character moves it right by
/// its glyph's advance.
pub open spec fn pen_step(font: TypefaceView, scale: u16, origin_x: i32, pen: Pen, c: char) -> Pen {
    if c == '\n' {
        Pen {
            x: (origin_x * SUBPIXEL_STEPS) as i64,
            y: clamp_pen(pen.y + line_steps(font.data, scale)),
        }
    } else {
        Pen { x: clamp_pen(pen.x + advance_steps(font.data, glyph_of(font.data, c), scale)), y: pen.y }
    }
}

/// The pen after the first `n` characters of `text`.
pub open spec fn pen_after(
    font: TypefaceView,
    text: Seq<char>,
    scale: u16,
    origin_x: i32,
    origin_y: i32,
    n: nat,
) -> Pen
    decreases n,
{
    if n == 0 {
        pen_start(origin_x, origin_y)
    } else {
        pen_step(
            font,
            scale,
            origin_x,
            pen_after(font, text, scale, origin_x, origin_y, (n - 1) as nat),
            text[n - 1],
        )
    }
}

/// The glyph for `c` with the pen at `pen`: its key holds the pen's offset
/// within its pixel, and its rectangle is the glyph's own, moved to that pixel.
pub open spec fn glyph_at(font: TypefaceView, scale: u16, pen: Pen, c: char) -> PositionedGlyph {
    let glyph = glyph_of(font.data, c);
    let sub_x = mod_floor(pen.x as int, SUBPIXEL_STEPS as int) as u8;
    let sub_y = mod_floor(pen.y as int, SUBPIXEL_STEPS as int) as u8;
    let px = div_floor(pen.x as int, SUBPIXEL_STEPS as int);
    let py = div_floor(pen.y as int, SUBPIXEL_STEPS as int);
    PositionedGlyph {
        key: GlyphKey { font_id: font.id, glyph_id: glyph, scale, sub_x, sub_y },
        bounds: match glyph_bounds(font.data, glyph, scale, sub_x, sub_y) {
            Some(b) => ScreenRect {
                min_x: (px + b.min_x) as i64,
                min_y: (py + b.min_y) as i64,
                max_x: (px + b.max_x) as i64,
                max_y: (py + b.max_y) as i64,
            },
            None => ScreenRect { min_x: px as i64, min_y: py as i64, max_x: px as i64, max_y: py as i64 },
        },
    }
}

/// The glyphs of the first `n` characters of `text`, in the order of the
/// text: one for each character but the line breaks.
pub open spec fn laid_out(
    font: TypefaceView,
    text: Seq<char>,
    scale: u16,
    origin_x: i32,
    origin_y: i32,
    n: nat,
) -> Seq<PositionedGlyph>
    decreases n,
{
    if n == 0 {
        Seq::empty()
    } else {
        let before = laid_out(font, text, scale, origin_x, origin_y, (n - 1) as nat);
        if text[n - 1] == '\n' {
            before
        } else {
            before.push(
                glyph_at(
                    font,
                    scale,
                    pen_after(font, text, scale, origin_x, origin_y, (n - 1) as nat),
                    text[n - 1],
                ),
            )
        }
    }
}

/// The layout of `text` in `font` at `scale` pixels from the pixel corner
/// `(origin_x, origin_y)`.
pub open spec fn layout_of(font: TypefaceView, text: Seq<char>, scale: u16, origin_x: i32, origin_y: i32) -> Seq<
    PositionedGlyph,
> {
    laid_out(font, text, scale, origin_x, origin_y, text.len())
}

/// Every glyph of a layout is of the font and the scale asked for, and its
/// sub-pixel offsets are less than a pixel.
pub proof fn lemma_layout_keys(
    font: TypefaceView,
    text: Seq<char>,
    scale: u16,
    origin_x: i32,
    origin_y: i32,
    n: nat,
)
    ensures
        laid_out(font, text, scale, origin_x, origin_y, n).len() <= n,
        forall|i: int|
            0 <= i < laid_out(font, text, scale, origin_x, origin_y, n).len() ==> {
                let g = #[trigger] laid_out(font, text, scale, origin_x, origin_y, n)[i];
                g.key.font_id == font.id && g.key.scale == scale && g.key.wf()
            },
    decreases n,
{
    if n > 0 {
        lemma_layout_keys(font, text, scale, origin_x, origin_y, (n - 1) as nat);
        let before = laid_out(font, text, scale, origin_x, origin_y, (n - 1) as nat);
        let all = laid_out(font, text, scale, origin_x, origin_y, n);
        assert forall|i: int| 0 <= i < all.len() implies {
            let g = #[trigger] all[i];
            g.key.font_id == font.id && g.key.scale == scale && g.key.wf()
        } by {
            if i < before.len() {
                assert(all[i] == before[i]);
            }
        }
    }
}

/// A layout is decided by the font, the text, the scale and the origin:
/// laying the same text out again gives the same glyphs at the same places.
pub proof fn lemma_layout_is_determined(
    font: TypefaceView,
    again: TypefaceView,
    text: Seq<char>,
    retyped: Seq<char>,
    scale: u16,
    origin_x: i32,
    origin_y: i32,
)
    requires
        font == again,
        text =~= retyped,
    ensures
        layout_of(font, text, scale, origin_x, origin_y) == layout_of(
            again,
            retyped,
            scale,
            origin_x,
            origin_y,
        ),
{
}

/// The layout of an empty text holds no glyph.
pub proof fn lemma_layout_of_nothing(font: TypefaceView, scale: u16, origin_x: i32, origin_y: i32)
    ensures
        layout_of(font, Seq::empty(), scale, origin_x, origin_y) == Seq::<PositionedGlyph>::empty(),
{
}

/// `a + b`, held within `PEN_LIMIT` of 0.
fn clamped_sum(a: i64, b: i64) -> (r: i64)
    requires
        -PEN_LIMIT <= a <= PEN_LIMIT,
        -PEN_LIMIT <= b <= PEN_LIMIT,
    ensures
        r == clamp_pen(a + b),
        -PEN_LIMIT <= r <= PEN_LIMIT,
{
    let sum: i64 = a + b;
    if sum < -PEN_LIMIT {
        -PEN_LIMIT
    } else if sum > PEN_LIMIT {
        PEN_LIMIT
    } else {
        sum
    }
}

/// The glyph for `c` with the pen at `pen`.
fn place_glyph(font: &Typeface, scale: u16, pen: Pen, c: char) -> (g: PositionedGlyph)
    requires
        -PEN_LIMIT <= pen.x <= PEN_LIMIT,
        -PEN_LIMIT <= pen.y <= PEN_LIMIT,
    ensures
        g == glyph_at(font@, scale, pen, c),
{
    let glyph: u16 = font.get_glyph(c);
    let sub_x: u8 = floor_mod(pen.x, 4) as u8;
    let sub_y: u8 = floor_mod(pen.y, 4) as u8;
    let px: i64 = floor_div(pen.x, 4);
    let py: i64 = floor_div(pen.y, 4);
    let key = GlyphKey { font_id: font.id(), glyph_id: glyph, scale, sub_x, sub_y };
    let bounds = match font.bounds(glyph, scale, sub_x, sub_y) {
        Some(b) => ScreenRect {
            min_x: px + b.min_x,
            min_y: py + b.min_y,
            max_x: px + b.max_x,
            max_y: py + b.max_y,
        },
        None => ScreenRect { min_x: px, min_y: py, max_x: px, max_y: py },
    };
    PositionedGlyph { key, bounds }
}

/// Lays `text` out in `font` at `scale` pixels, the first glyph's origin on
/// the pixel corner `(origin_x, origin_y)`.
///
/// The glyphs come in the order of the text. Each character takes the glyph
/// that the font maps it to, or the font's fallback glyph, and moves the pen
/// right by that glyph's advance; there is no kerning and no shaping. A line
/// break gives no glyph: it takes the pen back to the origin's column and
/// down by the font's height and line gap. The result depends on the
/// arguments alone.
pub fn layout(font: &Typeface, text: &str, scale: u16, origin_x: i32, origin_y: i32) -> (r: Vec<
    PositionedGlyph,
>)
    ensures
        r@ == layout_of(font@, text@, scale, origin_x, origin_y),
        r@.len() <= text@.len(),
        forall|i: int|
            0 <= i < r@.len() ==> {
                let g = #[trigger] r@[i];
                g.key.font_id == font@.id && g.key.scale == scale && g.key.wf()
            },
{
    let n: usize = text.unicode_len();
    let start_x: i64 = origin_x as i64 * 4;
    let mut out: Vec<PositionedGlyph> = Vec::new();
    let mut pen = Pen { x: start_x, y: origin_y as i64 * 4 };
    let mut i: usize = 0;
    while i < n
        invariant
            i <= n,
            n == text@.len(),
            start_x == origin_x * SUBPIXEL_STEPS,
            pen == pen_after(font@, text@, scale, origin_x, origin_y, i as nat),
            out@ == laid_out(font@, text@, scale, origin_x, origin_y, i as nat),
            -PEN_LIMIT <= pen.x <= PEN_LIMIT,
            -PEN_LIMIT <= pen.y <= PEN_LIMIT,
        decreases n - i,
    {
        let c: char = text.get_char(i);
        if c == '\n' {
            pen = Pen { x: start_x, y: clamped_sum(pen.y, font.line_advance(scale)) };
        } else {
            let g: PositionedGlyph = place_glyph(font, scale, pen, c);
            out.push(g);
            pen = Pen { x: clamped_sum(pen.x, font.advance(g.key.glyph_id, scale)), y: pen.y };
        }
        i += 1;
    }
    proof {
        lemma_layout_keys(font@, text@, scale, origin_x, origin_y, n as nat);
    }
    out
}

} // verus!
