use glyph_atlas::{
    layout, Bitmap, Typeface, FontLoadError, FontRenderer, GlyphKey, GlyphTooLarge, PositionedGlyph,
    Quad, Rasterized, Rect, RenderJob, ScreenRect, Step,
};

fn put16(out: &mut Vec<u8>, v: u16) {
    out.extend_from_slice(&v.to_be_bytes());
}

fn put_i16(out: &mut Vec<u8>, v: i16) {
    out.extend_from_slice(&v.to_be_bytes());
}

fn put32(out: &mut Vec<u8>, v: u32) {
    out.extend_from_slice(&v.to_be_bytes());
}

/// The `glyf` entry of a glyph whose outline is the rectangle from
/// `(x0, y0)` to `(x1, y1)`, in font units.
fn square(x0: i16, y0: i16, x1: i16, y1: i16) -> Vec<u8> {
    let mut g = Vec::new();
    put_i16(&mut g, 1);
    for v in [x0, y0, x1, y1] {
        put_i16(&mut g, v);
    }
    put16(&mut g, 3);
    put16(&mut g, 0);
    g.extend_from_slice(&[1, 1, 1, 1]);
    for v in [x0, x1 - x0, 0, x0 - x1] {
        put_i16(&mut g, v);
    }
    for v in [y0, 0, y1 - y0, 0] {
        put_i16(&mut g, v);
    }
    g
}

/// A font file with five glyphs. Ascent 12, descent -4, line gap 4: at a
/// scale of 16 pixels one font unit is one pixel.
///
/// glyph 0, the fallback: (0, 0)..(4, 4), advance 5
/// glyph 1, 'A': (1, 0)..(7, 8), advance 8
/// glyph 2, 'B': (0, -2)..(6, 8), advance 7
/// glyph 3, ' ': no outline, advance 4
/// glyph 4, 'W': (0, 0)..(40, 40), advance 41
fn font_file() -> Vec<u8> {
    let glyphs: Vec<Vec<u8>> =
        vec![square(0, 0, 4, 4), square(1, 0, 7, 8), square(0, -2, 6, 8), vec![], square(0, 0, 40, 40)];
    let advances: [u16; 5] = [5, 8, 7, 4, 41];

    let mut head = Vec::new();
    put32(&mut head, 0x0001_0000);
    put32(&mut head, 0);
    put32(&mut head, 0);
    put32(&mut head, 0x5F0F_3CF5);
    put16(&mut head, 0);
    put16(&mut head, 16);
    head.extend_from_slice(&[0; 16]);
    for v in [0i16, -2, 40, 40] {
        put_i16(&mut head, v);
    }
    put16(&mut head, 0);
    put16(&mut head, 8);
    put_i16(&mut head, 2);
    put_i16(&mut head, 0);
    put_i16(&mut head, 0);
    assert_eq!(head.len(), 54);

    let mut hhea = Vec::new();
    put32(&mut hhea, 0x0001_0000);
    put_i16(&mut hhea, 12);
    put_i16(&mut hhea, -4);
    put_i16(&mut hhea, 4);
    hhea.extend_from_slice(&[0; 24]);
    put16(&mut hhea, 5);
    assert_eq!(hhea.len(), 36);

    let mut maxp = Vec::new();
    put32(&mut maxp, 0x0000_5000);
    put16(&mut maxp, 5);

    let mut hmtx = Vec::new();
    for a in advances {
        put16(&mut hmtx, a);
        put_i16(&mut hmtx, 0);
    }

    let mut cmap = Vec::new();
    put16(&mut cmap, 0);
    put16(&mut cmap, 1);
    put16(&mut cmap, 0);
    put16(&mut cmap, 3);
    put32(&mut cmap, 12);
    put16(&mut cmap, 0);
    put16(&mut cmap, 262);
    put16(&mut cmap, 0);
    let mut map = [0u8; 256];
    map[b'A' as usize] = 1;
    map[b'B' as usize] = 2;
    map[b' ' as usize] = 3;
    map[b'W' as usize] = 4;
    cmap.extend_from_slice(&map);

    let mut loca = Vec::new();
    let mut glyf = Vec::new();
    for g in &glyphs {
        put16(&mut loca, (glyf.len() / 2) as u16);
        glyf.extend_from_slice(g);
    }
    put16(&mut loca, (glyf.len() / 2) as u16);

    let tables: Vec<(&[u8; 4], Vec<u8>)> = vec![
        (b"cmap", cmap),
        (b"glyf", glyf),
        (b"head", head),
        (b"hhea", hhea),
        (b"hmtx", hmtx),
        (b"loca", loca),
        (b"maxp", maxp),
    ];
    let mut file = Vec::new();
    put32(&mut file, 0x0001_0000);
    put16(&mut file, tables.len() as u16);
    put16(&mut file, 64);
    put16(&mut file, 2);
    put16(&mut file, 48);
    let mut offset = 12 + 16 * tables.len();
    for (tag, data) in &tables {
        file.extend_from_slice(*tag);
        put32(&mut file, 0);
        put32(&mut file, offset as u32);
        put32(&mut file, data.len() as u32);
        offset += (data.len() + 3) / 4 * 4;
    }
    for (_, data) in &tables {
        file.extend_from_slice(data);
        while file.len() % 4 != 0 {
            file.push(0);
        }
    }
    file
}

fn font() -> Typeface {
    Typeface::new(7, font_file()).unwrap()
}

fn key(glyph_id: u16, scale: u16, sub_x: u8, sub_y: u8) -> GlyphKey {
    GlyphKey { font_id: 7, glyph_id, scale, sub_x, sub_y }
}

fn screen(min_x: i64, min_y: i64, max_x: i64, max_y: i64) -> ScreenRect {
    ScreenRect { min_x, min_y, max_x, max_y }
}

fn rect(x: u32, y: u32, width: u32, height: u32) -> Rect {
    Rect { x, y, width, height }
}

fn block(width: u32, height: u32, fill: u8) -> Bitmap {
    Bitmap::new(width, height, vec![fill; (width * height) as usize]).unwrap()
}

fn sheet_for(glyphs: &[PositionedGlyph]) -> Vec<Rasterized> {
    glyphs
        .iter()
        .map(|g| Rasterized {
            key: g.key,
            bitmap: block(
                (g.bounds.max_x - g.bounds.min_x) as u32,
                (g.bounds.max_y - g.bounds.min_y) as u32,
                g.key.glyph_id as u8,
            ),
        })
        .collect()
}

#[test]
fn a_font_file_is_parsed_or_refused() {
    assert_eq!(font().id(), 7);
    assert!(matches!(Typeface::new(0, vec![]), Err(FontLoadError)));
    assert!(matches!(Typeface::new(0, vec![1, 2, 3, 4, 5, 6, 7, 8, 9, 10, 11, 12]), Err(FontLoadError)));
    let mut cut = font_file();
    cut.truncate(60);
    assert!(Typeface::new(0, cut).is_err());
}

#[test]
fn characters_map_to_glyphs_and_the_rest_to_the_fallback() {
    let font = font();
    assert_eq!(font.get_glyph('A'), 1);
    assert_eq!(font.get_glyph('B'), 2);
    assert_eq!(font.get_glyph(' '), 3);
    assert_eq!(font.get_glyph('W'), 4);
    assert_eq!(font.get_glyph('Z'), 0);
    assert_eq!(font.get_glyph('\u{1F600}'), 0);
}

#[test]
fn advances_scale_with_the_pixel_height() {
    let font = font();
    assert_eq!(font.advance(1, 16), 32);
    assert_eq!(font.advance(3, 16), 16);
    assert_eq!(font.advance(0, 16), 20);
    assert_eq!(font.advance(1, 9), 18);
    assert_eq!(font.advance(2, 9), 15);
    assert_eq!(font.advance(1, 0), 0);
    assert_eq!(font.advance(1, 65535), 8 * 65535 * 4 / 16);
    assert_eq!(font.advance(5, 16), 0);
    assert_eq!(font.advance(60000, 16), 0);
    assert_eq!(font.line_advance(16), 80);
    assert_eq!(font.line_advance(9), 45);
    assert_eq!(font.line_advance(0), 0);
}

#[test]
fn bounds_round_outwards_to_whole_pixels() {
    let font = font();
    assert_eq!(font.bounds(1, 16, 0, 0), Some(screen(1, -8, 7, 0)));
    assert_eq!(font.bounds(2, 16, 0, 0), Some(screen(0, -8, 6, 2)));
    assert_eq!(font.bounds(0, 16, 0, 0), Some(screen(0, -4, 4, 0)));
    assert_eq!(font.bounds(3, 16, 0, 0), None);
    assert_eq!(font.bounds(9, 16, 0, 0), None);
    assert_eq!(font.bounds(1, 16, 1, 0), Some(screen(1, -8, 8, 0)));
    assert_eq!(font.bounds(1, 16, 0, 3), Some(screen(1, -8, 7, 1)));
    assert_eq!(font.bounds(1, 9, 0, 0), Some(screen(0, -5, 4, 0)));
    assert_eq!(font.bounds(2, 9, 2, 0), Some(screen(0, -5, 4, 2)));
    assert_eq!(font.bounds(1, 32, 0, 0), Some(screen(2, -16, 14, 0)));
    assert_eq!(font.bounds(1, 0, 0, 0), None);
    // offsets of a pixel and more move the rectangle by whole pixels
    assert_eq!(font.bounds(1, 16, 4, 8), Some(screen(2, -6, 8, 2)));
    assert_eq!(font.bounds(1, 65535, 255, 255), Some(screen(4159, -32704, 28736, 64)));
}

#[test]
fn layout_places_glyphs_by_their_advances() {
    let font = font();
    let glyphs = layout(&font, "AB", 16, 10, 20);
    assert_eq!(
        glyphs,
        vec![
            PositionedGlyph { key: key(1, 16, 0, 0), bounds: screen(11, 12, 17, 20) },
            PositionedGlyph { key: key(2, 16, 0, 0), bounds: screen(18, 12, 24, 22) },
        ]
    );
}

#[test]
fn layout_is_the_same_every_time() {
    let font = font();
    let first = layout(&font, "AB", 16, 3, 4);
    let second = layout(&font, "AB", 16, 3, 4);
    assert_eq!(first, second);
    assert_eq!(first.len(), 2);
    let other = Typeface::new(7, font_file()).unwrap();
    assert_eq!(layout(&other, "AB", 16, 3, 4), first);
}

#[test]
fn layout_breaks_lines_and_keeps_shapeless_glyphs() {
    let font = font();
    let glyphs = layout(&font, "A B\nAZ", 16, 10, 20);
    assert_eq!(
        glyphs,
        vec![
            PositionedGlyph { key: key(1, 16, 0, 0), bounds: screen(11, 12, 17, 20) },
            PositionedGlyph { key: key(3, 16, 0, 0), bounds: screen(18, 20, 18, 20) },
            PositionedGlyph { key: key(2, 16, 0, 0), bounds: screen(22, 12, 28, 22) },
            PositionedGlyph { key: key(1, 16, 0, 0), bounds: screen(11, 32, 17, 40) },
            PositionedGlyph { key: key(0, 16, 0, 0), bounds: screen(18, 36, 22, 40) },
        ]
    );
    assert_eq!(layout(&font, "", 16, 10, 20), vec![]);
    assert_eq!(layout(&font, "\n\n", 16, 10, 20), vec![]);
}

#[test]
fn layout_keeps_sub_pixel_offsets_in_the_key() {
    let font = font();
    let glyphs = layout(&font, "ABA", 9, 0, 0);
    assert_eq!(
        glyphs,
        vec![
            PositionedGlyph { key: key(1, 9, 0, 0), bounds: screen(0, -5, 4, 0) },
            PositionedGlyph { key: key(2, 9, 2, 0), bounds: screen(4, -5, 8, 2) },
            // the pen is at 18 + 15 = 33 steps: pixel 8, one step in
            PositionedGlyph { key: key(1, 9, 1, 0), bounds: screen(8, -5, 13, 0) },
        ]
    );
    let shifted = layout(&font, "A", 16, -3, -1);
    assert_eq!(shifted, vec![PositionedGlyph { key: key(1, 16, 0, 0), bounds: screen(-2, -9, 4, -1) }]);
    let second_line = layout(&font, "\nA", 9, 0, 0);
    // 45 steps down: pixel 11, one step in
    assert_eq!(second_line, vec![PositionedGlyph { key: key(1, 9, 0, 1), bounds: screen(0, 6, 4, 12) }]);
}

#[test]
fn an_empty_text_draws_nothing_and_leaves_the_atlas() {
    let mut renderer = FontRenderer::new(font(), 32, 16);
    assert_eq!(renderer.render_text("", 16, 0, 0, &vec![]), Ok(vec![]));
    assert!(renderer.atlas().is_empty());
    assert!(renderer.take_dirty().is_empty());

    let glyphs = layout(renderer.font(), "A", 16, 0, 8);
    assert_eq!(renderer.render_text("A", 16, 0, 8, &sheet_for(&glyphs)).unwrap().len(), 1);
    renderer.take_dirty();
    let before = renderer.atlas().entries().clone();
    assert_eq!(renderer.render_text("", 16, 0, 0, &vec![]), Ok(vec![]));
    assert_eq!(renderer.atlas().entries(), &before);
    assert!(renderer.take_dirty().is_empty());
}

#[test]
fn steps_ask_for_the_bitmaps_they_miss() {
    let mut renderer = FontRenderer::new(font(), 32, 32);
    let mut job: RenderJob = renderer.begin_text("A AB", 16, 0, 8);
    assert_eq!(renderer.atlas().frame(), 1);
    assert!(!job.is_finished());

    let a = key(1, 16, 0, 0);
    let b = key(2, 16, 0, 0);
    assert_eq!(renderer.step(&mut job, None), Step::NeedBitmap { key: a, width: 6, height: 8 });
    assert_eq!(renderer.step(&mut job, None), Step::NeedBitmap { key: a, width: 6, height: 8 });
    assert!(renderer.quads(job.glyphs()).is_empty());
    assert_eq!(renderer.step(&mut job, Some(block(6, 8, 1))), Step::Advanced);
    // the space has no shape
    assert_eq!(renderer.step(&mut job, None), Step::Advanced);
    // the second A is a hit
    assert_eq!(renderer.step(&mut job, None), Step::Advanced);
    assert_eq!(renderer.step(&mut job, None), Step::NeedBitmap { key: b, width: 6, height: 10 });
    assert_eq!(renderer.step(&mut job, Some(block(6, 10, 2))), Step::Advanced);
    assert_eq!(renderer.step(&mut job, None), Step::Finished);
    assert_eq!(renderer.step(&mut job, Some(block(1, 1, 0))), Step::Finished);
    assert!(job.is_finished());

    assert_eq!(job.glyphs(), &layout(renderer.font(), "A AB", 16, 0, 8));
    assert_eq!(
        renderer.quads(job.glyphs()),
        vec![
            Quad { atlas: rect(0, 0, 6, 8), screen: screen(1, 0, 7, 8) },
            Quad { atlas: rect(0, 0, 6, 8), screen: screen(13, 0, 19, 8) },
            Quad { atlas: rect(0, 8, 6, 10), screen: screen(20, 0, 26, 10) },
        ]
    );
}

#[test]
fn a_bitmap_of_the_wrong_size_is_passed_over() {
    let mut renderer = FontRenderer::new(font(), 32, 16);
    let mut job = renderer.begin_text("AA", 16, 0, 8);
    assert_eq!(renderer.step(&mut job, Some(block(6, 7, 1))), Step::Advanced);
    assert!(renderer.quads(job.glyphs()).is_empty());
    assert!(renderer.atlas().is_empty());
    let lying = Bitmap { width: 6, height: 8, data: vec![0; 47] };
    assert_eq!(renderer.step(&mut job, Some(lying)), Step::Advanced);
    assert!(renderer.quads(job.glyphs()).is_empty());
    assert!(renderer.atlas().is_empty());
    assert_eq!(renderer.step(&mut job, None), Step::Finished);
}

#[test]
fn a_glyph_larger_than_the_atlas_fails_the_text() {
    let mut renderer = FontRenderer::new(font(), 32, 16);
    let glyphs = layout(renderer.font(), "AW", 16, 0, 40);
    let sheet = sheet_for(&glyphs);
    assert_eq!(
        renderer.render_text("AW", 16, 0, 40, &sheet),
        Err(GlyphTooLarge { width: 40, height: 40 })
    );
    let mut job = renderer.begin_text("W", 16, 0, 40);
    assert_eq!(renderer.step(&mut job, None), Step::Failed(GlyphTooLarge { width: 40, height: 40 }));
    assert_eq!(
        renderer.step(&mut job, Some(block(40, 40, 0))),
        Step::Failed(GlyphTooLarge { width: 40, height: 40 })
    );
    assert!(!job.is_finished());
    // at a quarter of the size it fits
    let small = layout(renderer.font(), "W", 4, 0, 10);
    assert_eq!(renderer.render_text("W", 4, 0, 10, &sheet_for(&small)).unwrap().len(), 1);
}

#[test]
fn render_text_draws_from_the_sheet_and_the_atlas() {
    let mut renderer = FontRenderer::new(font(), 32, 32);
    let glyphs = layout(renderer.font(), "AB A", 16, 2, 10);
    let wanted = renderer.missing(&glyphs);
    assert_eq!(wanted, vec![glyphs[0], glyphs[1], glyphs[3]]);

    let quads = renderer.render_text("AB A", 16, 2, 10, &sheet_for(&wanted)).unwrap();
    assert_eq!(
        quads,
        vec![
            Quad { atlas: rect(0, 0, 6, 8), screen: screen(3, 2, 9, 10) },
            Quad { atlas: rect(0, 8, 6, 10), screen: screen(10, 2, 16, 12) },
            Quad { atlas: rect(0, 0, 6, 8), screen: screen(22, 2, 28, 10) },
        ]
    );
    let dirty: Vec<(Rect, Vec<u8>)> =
        renderer.take_dirty().into_iter().map(|d| (d.rect, d.data)).collect();
    assert_eq!(dirty, vec![(rect(0, 0, 6, 8), vec![1; 48]), (rect(0, 8, 6, 10), vec![2; 60])]);

    // everything is cached now: no sheet is needed, nothing is to upload
    assert_eq!(renderer.missing(&glyphs), vec![]);
    let again = renderer.render_text("AB A", 16, 2, 10, &vec![]).unwrap();
    assert_eq!(again, quads);
    assert!(renderer.take_dirty().is_empty());
    assert_eq!(renderer.atlas().frame(), 2);
    assert_eq!(renderer.atlas().entry(&key(1, 16, 0, 0)).unwrap().last_used, 2);
}

#[test]
fn a_glyph_that_is_nowhere_gives_no_quad() {
    let mut renderer = FontRenderer::new(font(), 32, 16);
    let glyphs = layout(renderer.font(), "AB", 16, 0, 8);
    let only_b = sheet_for(&glyphs[1..]);
    let quads = renderer.render_text("AB", 16, 0, 8, &only_b).unwrap();
    assert_eq!(quads, vec![Quad { atlas: rect(0, 0, 6, 10), screen: screen(8, 0, 14, 10) }]);
    assert!(!renderer.atlas().contains(&key(1, 16, 0, 0)));
    assert_eq!(renderer.get_glyph('B'), 2);
}

#[test]
fn quads_point_at_where_the_glyphs_lie_in_the_end() {
    // B is taller than the row that A opened and finds no room below it:
    // A leaves, and comes back from the sheet when the text asks again
    let mut renderer = FontRenderer::new(font(), 32, 16);
    let glyphs = layout(renderer.font(), "AB A", 16, 2, 10);
    let sheet = sheet_for(&renderer.missing(&glyphs));
    let quads = renderer.render_text("AB A", 16, 2, 10, &sheet).unwrap();
    assert_eq!(
        quads,
        vec![
            Quad { atlas: rect(6, 0, 6, 8), screen: screen(3, 2, 9, 10) },
            Quad { atlas: rect(0, 0, 6, 10), screen: screen(10, 2, 16, 12) },
            Quad { atlas: rect(6, 0, 6, 8), screen: screen(22, 2, 28, 10) },
        ]
    );
    let dirty: Vec<(Rect, Vec<u8>)> =
        renderer.take_dirty().into_iter().map(|d| (d.rect, d.data)).collect();
    assert_eq!(dirty, vec![(rect(0, 0, 6, 10), vec![2; 60]), (rect(6, 0, 6, 8), vec![1; 48])]);

    // without the sheet the glyph that left is not drawn
    let mut small = FontRenderer::new(font(), 6, 10);
    let b_then_a = layout(small.font(), "BA", 16, 0, 8);
    let quads = small.render_text("BA", 16, 0, 8, &sheet_for(&b_then_a)).unwrap();
    assert_eq!(quads, vec![Quad { atlas: rect(0, 0, 6, 8), screen: screen(8, 0, 14, 8) }]);
}
