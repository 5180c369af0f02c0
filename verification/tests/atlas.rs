use glyph_atlas::order::packing_order;
use glyph_atlas::shelf::pack_all;
use glyph_atlas::{Atlas, AtlasEntry, Bitmap, GlyphKey, GlyphTooLarge, Rect, Shelf};

fn glyph(id: u16) -> GlyphKey {
    GlyphKey::new(0, id, 16)
}

fn block(width: u32, height: u32, fill: u8) -> Bitmap {
    Bitmap::new(width, height, vec![fill; (width * height) as usize]).unwrap()
}

fn rect(x: u32, y: u32, width: u32, height: u32) -> Rect {
    Rect { x, y, width, height }
}

/// Asks for a glyph as a renderer does: a lookup, and on a miss the bitmap.
/// Returns the rectangle and whether the glyph had to be rasterized.
fn request(atlas: &mut Atlas, key: GlyphKey, width: u32, height: u32) -> (Rect, bool) {
    match atlas.lookup(&key) {
        Some(r) => (r, false),
        None => (atlas.insert(key, block(width, height, key.glyph_id as u8)).unwrap(), true),
    }
}

fn assert_no_overlap(atlas: &Atlas) {
    let entries: &Vec<AtlasEntry> = atlas.entries();
    for (i, a) in entries.iter().enumerate() {
        assert!(a.rect.x + a.rect.width <= atlas.width());
        assert!(a.rect.y + a.rect.height <= atlas.height());
        for b in entries.iter().skip(i + 1) {
            assert!(a.rect.is_disjoint_from(&b.rect), "{:?} overlaps {:?}", a, b);
            assert_ne!(a.key, b.key);
        }
    }
}

#[test]
fn oversized_glyph_is_refused_on_an_empty_atlas() {
    let mut atlas = Atlas::new(16, 8);
    assert_eq!(
        atlas.insert(glyph(1), block(17, 8, 1)),
        Err(GlyphTooLarge { width: 17, height: 8 })
    );
    assert_eq!(
        atlas.insert(glyph(1), block(16, 9, 1)),
        Err(GlyphTooLarge { width: 16, height: 9 })
    );
    assert!(atlas.is_empty());
    assert!(atlas.take_dirty().is_empty());
    assert_eq!(atlas.insert(glyph(1), block(16, 8, 1)), Ok(rect(0, 0, 16, 8)));
}

#[test]
fn two_glyph_atlas_evicts_the_least_recently_used() {
    let mut atlas = Atlas::new(16, 8);
    let (a, b, c) = (glyph(b'A' as u16), glyph(b'B' as u16), glyph(b'C' as u16));

    atlas.begin_frame();
    assert_eq!(request(&mut atlas, a, 8, 8), (rect(0, 0, 8, 8), true));
    atlas.begin_frame();
    assert_eq!(request(&mut atlas, b, 8, 8), (rect(8, 0, 8, 8), true));
    atlas.begin_frame();
    assert_eq!(request(&mut atlas, a, 8, 8), (rect(0, 0, 8, 8), false));
    assert_eq!(atlas.len(), 2);
    assert!(atlas.contains(&a) && atlas.contains(&b));

    atlas.begin_frame();
    assert_eq!(request(&mut atlas, c, 8, 8), (rect(8, 0, 8, 8), true));
    assert_eq!(atlas.len(), 2);
    assert!(atlas.contains(&a));
    assert!(!atlas.contains(&b));
    assert!(atlas.contains(&c));
    assert_eq!(atlas.entry(&a).unwrap().rect, rect(0, 0, 8, 8));
    assert_eq!(atlas.entry(&a).unwrap().last_used, 3);
    assert_eq!(atlas.entry(&c).unwrap().last_used, 4);
    assert_no_overlap(&atlas);
}

#[test]
fn a_hit_returns_the_same_rectangle_and_rasterizes_once() {
    let mut atlas = Atlas::new(64, 64);
    atlas.begin_frame();
    let (first, rasterized) = request(&mut atlas, glyph(7), 10, 12);
    assert!(rasterized);
    let before: Vec<AtlasEntry> = atlas.entries().clone();
    let (second, rasterized) = request(&mut atlas, glyph(7), 10, 12);
    assert!(!rasterized);
    assert_eq!(first, second);
    assert_eq!(atlas.lookup(&glyph(7)), Some(first));
    assert_eq!(atlas.entries(), &before);
    assert_eq!(atlas.len(), 1);
}

#[test]
fn inserting_a_cached_glyph_is_a_hit() {
    let mut atlas = Atlas::new(64, 64);
    assert_eq!(atlas.insert(glyph(1), block(4, 4, 9)), Ok(rect(0, 0, 4, 4)));
    atlas.begin_frame();
    assert_eq!(atlas.insert(glyph(1), block(5, 5, 3)), Ok(rect(0, 0, 4, 4)));
    assert_eq!(atlas.len(), 1);
    assert_eq!(atlas.bitmap(&glyph(1)), Some(vec![9; 16]));
    assert_eq!(atlas.entry(&glyph(1)).unwrap().last_used, 1);
}

#[test]
fn an_empty_bitmap_gets_the_empty_rectangle() {
    let mut atlas = Atlas::new(64, 64);
    assert_eq!(atlas.insert(glyph(1), Bitmap::empty()), Ok(rect(0, 0, 0, 0)));
    assert_eq!(atlas.insert(glyph(2), block(0, 5, 0)), Ok(rect(0, 0, 0, 0)));
    assert!(atlas.is_empty());
    assert!(!atlas.contains(&glyph(1)));
    assert_eq!(atlas.lookup(&glyph(1)), None);
}

#[test]
fn bitmap_needs_one_byte_for_each_pixel() {
    assert!(Bitmap::new(3, 2, vec![0; 6]).is_some());
    assert!(Bitmap::new(3, 2, vec![0; 5]).is_none());
    assert!(Bitmap::new(3, 2, vec![0; 7]).is_none());
    assert!(Bitmap::new(0, 9, vec![]).is_some());
}

#[test]
fn shelves_fill_left_to_right_and_then_downwards() {
    let mut atlas = Atlas::new(20, 20);
    assert_eq!(atlas.insert(glyph(1), block(8, 8, 1)), Ok(rect(0, 0, 8, 8)));
    assert_eq!(atlas.insert(glyph(2), block(8, 6, 2)), Ok(rect(8, 0, 8, 6)));
    // 4 columns are left in the row, and 5 are asked for
    assert_eq!(atlas.insert(glyph(3), block(5, 4, 3)), Ok(rect(0, 8, 5, 4)));
    // taller than the row of height 4: a new row
    assert_eq!(atlas.insert(glyph(4), block(3, 5, 4)), Ok(rect(0, 12, 3, 5)));
    assert_eq!(atlas.insert(glyph(5), block(17, 3, 5)), Ok(rect(3, 12, 17, 3)));
    assert_eq!(atlas.len(), 5);
    assert_no_overlap(&atlas);
}

#[test]
fn shelf_places_at_the_cursor_or_in_a_new_row() {
    let start = Shelf::new();
    assert_eq!(start, Shelf { x: 0, y: 0, row_h: 0 });
    let (r, s) = start.try_place(4, 3, 10, 10).unwrap();
    assert_eq!((r, s), (rect(0, 0, 4, 3), Shelf { x: 4, y: 0, row_h: 3 }));
    let (r, s) = s.try_place(6, 3, 10, 10).unwrap();
    assert_eq!((r, s), (rect(4, 0, 6, 3), Shelf { x: 10, y: 0, row_h: 3 }));
    let (r, s) = s.try_place(1, 7, 10, 10).unwrap();
    assert_eq!((r, s), (rect(0, 3, 1, 7), Shelf { x: 1, y: 3, row_h: 7 }));
    assert_eq!(s.try_place(10, 1, 10, 10), None);
    assert_eq!(s.try_place(9, 8, 10, 10), None);
    assert_eq!(start.try_place(11, 1, 10, 10), None);
    assert_eq!(start.try_place(1, 11, 10, 10), None);
    let far = Shelf { x: u32::MAX, y: u32::MAX, row_h: u32::MAX };
    assert_eq!(far.try_place(1, 1, u32::MAX, u32::MAX), None);
    assert_eq!(
        far.try_place(0, 1, u32::MAX, u32::MAX),
        Some((rect(u32::MAX, u32::MAX, 0, 1), far))
    );
}

#[test]
fn packing_order_is_taller_then_wider_then_older() {
    let sizes = vec![(4, 2), (1, 9), (6, 2), (4, 2), (3, 9), (1, 1)];
    assert_eq!(packing_order(&sizes), vec![4, 1, 2, 0, 3, 5]);
    assert_eq!(packing_order(&vec![]), Vec::<usize>::new());
    assert_eq!(packing_order(&vec![(1, 1)]), vec![0]);
}

#[test]
fn pack_all_packs_in_the_order_given() {
    let sizes = vec![(6, 4), (4, 4), (5, 3), (5, 3), (10, 1)];
    let (rects, shelf) = pack_all(&sizes, 10, 8).unwrap();
    assert_eq!(
        rects,
        vec![rect(0, 0, 6, 4), rect(6, 0, 4, 4), rect(0, 4, 5, 3), rect(5, 4, 5, 3), rect(0, 7, 10, 1)]
    );
    assert_eq!(shelf, Shelf { x: 10, y: 7, row_h: 1 });
    assert_eq!(pack_all(&sizes, 10, 7), None);
    assert_eq!(pack_all(&vec![], 0, 0), Some((vec![], Shelf::new())));
}

#[test]
fn a_full_atlas_is_repacked_tallest_first() {
    let mut atlas = Atlas::new(10, 10);
    atlas.begin_frame();
    assert_eq!(atlas.insert(glyph(1), block(4, 2, 1)), Ok(rect(0, 0, 4, 2)));
    atlas.begin_frame();
    assert_eq!(atlas.insert(glyph(2), block(4, 5, 2)), Ok(rect(0, 2, 4, 5)));
    atlas.begin_frame();
    assert_eq!(atlas.insert(glyph(3), block(6, 3, 3)), Ok(rect(4, 2, 6, 3)));
    atlas.begin_frame();
    assert_eq!(atlas.insert(glyph(4), block(4, 3, 4)), Ok(rect(0, 7, 4, 3)));
    assert!(atlas.take_dirty().len() == 4);

    // no room at the cursor: glyph 1 leaves, the rest is packed by height
    atlas.begin_frame();
    assert_eq!(atlas.insert(glyph(5), block(7, 2, 5)), Ok(rect(0, 8, 7, 2)));
    assert!(!atlas.contains(&glyph(1)));
    assert_eq!(atlas.entry(&glyph(2)).unwrap().rect, rect(0, 0, 4, 5));
    assert_eq!(atlas.entry(&glyph(3)).unwrap().rect, rect(4, 0, 6, 3));
    assert_eq!(atlas.entry(&glyph(4)).unwrap().rect, rect(0, 5, 4, 3));
    assert_eq!(atlas.len(), 4);
    assert_no_overlap(&atlas);

    // a repack changes no stamp and no bitmap, and everything is to upload
    assert_eq!(atlas.entry(&glyph(2)).unwrap().last_used, 2);
    assert_eq!(atlas.entry(&glyph(3)).unwrap().last_used, 3);
    assert_eq!(atlas.entry(&glyph(4)).unwrap().last_used, 4);
    assert_eq!(atlas.entry(&glyph(5)).unwrap().last_used, 5);
    assert_eq!(atlas.bitmap(&glyph(2)), Some(vec![2; 20]));
    assert_eq!(atlas.bitmap(&glyph(3)), Some(vec![3; 18]));
    assert_eq!(atlas.bitmap(&glyph(4)), Some(vec![4; 12]));
    assert_eq!(atlas.bitmap(&glyph(5)), Some(vec![5; 14]));
    let dirty = atlas.take_dirty();
    let regions: Vec<(Rect, Vec<u8>)> = dirty.into_iter().map(|d| (d.rect, d.data)).collect();
    assert_eq!(
        regions,
        vec![
            (rect(0, 0, 4, 5), vec![2; 20]),
            (rect(4, 0, 6, 3), vec![3; 18]),
            (rect(0, 5, 4, 3), vec![4; 12]),
            (rect(0, 8, 7, 2), vec![5; 14]),
        ]
    );
    assert!(atlas.take_dirty().is_empty());
}

#[test]
fn eviction_goes_on_until_the_glyph_fits() {
    let mut atlas = Atlas::new(8, 8);
    for id in 1..=4u16 {
        atlas.begin_frame();
        atlas.insert(glyph(id), block(4, 4, id as u8)).unwrap();
    }
    assert_eq!(atlas.len(), 4);
    // touch 1 and 2: 3 and 4 are now the oldest
    atlas.begin_frame();
    assert!(atlas.lookup(&glyph(1)).is_some());
    assert!(atlas.lookup(&glyph(2)).is_some());
    atlas.begin_frame();
    // 8 by 4 needs a whole row: one eviction does not do, two do
    assert_eq!(atlas.insert(glyph(9), block(8, 4, 9)), Ok(rect(0, 4, 8, 4)));
    assert!(atlas.contains(&glyph(1)) && atlas.contains(&glyph(2)));
    assert!(!atlas.contains(&glyph(3)) && !atlas.contains(&glyph(4)));
    assert_eq!(atlas.entry(&glyph(1)).unwrap().rect, rect(0, 0, 4, 4));
    assert_eq!(atlas.entry(&glyph(2)).unwrap().rect, rect(4, 0, 4, 4));
    assert_no_overlap(&atlas);

    // as large as the atlas: everything else leaves
    atlas.begin_frame();
    assert_eq!(atlas.insert(glyph(10), block(8, 8, 10)), Ok(rect(0, 0, 8, 8)));
    assert_eq!(atlas.len(), 1);
}

#[test]
fn capacity_for_n_glyphs_evicts_the_oldest_of_them() {
    let n: u16 = 16;
    let mut atlas = Atlas::new(32, 32);
    for id in 0..n {
        atlas.begin_frame();
        atlas.insert(glyph(id), block(8, 8, id as u8)).unwrap();
    }
    assert_eq!(atlas.len(), n as usize);
    // every glyph but 5 is asked for again
    atlas.begin_frame();
    for id in 0..n {
        if id != 5 {
            assert!(atlas.lookup(&glyph(id)).is_some());
        }
    }
    atlas.begin_frame();
    atlas.insert(glyph(100), block(8, 8, 100)).unwrap();
    assert_eq!(atlas.len(), n as usize);
    for id in 0..n {
        assert_eq!(atlas.contains(&glyph(id)), id != 5);
    }
    assert!(atlas.contains(&glyph(100)));
    assert_no_overlap(&atlas);
}

#[test]
fn glyphs_of_one_frame_leave_in_the_order_they_came() {
    let mut atlas = Atlas::new(16, 8);
    atlas.begin_frame();
    atlas.insert(glyph(1), block(8, 8, 1)).unwrap();
    atlas.insert(glyph(2), block(8, 8, 2)).unwrap();
    atlas.insert(glyph(3), block(8, 8, 3)).unwrap();
    assert!(!atlas.contains(&glyph(1)));
    assert!(atlas.contains(&glyph(2)) && atlas.contains(&glyph(3)));
}

#[test]
fn rectangles_never_overlap() {
    let mut atlas = Atlas::new(64, 48);
    let mut state: u32 = 12345;
    for round in 0..400u32 {
        state = state.wrapping_mul(1664525).wrapping_add(1013904223);
        let id = ((state >> 8) % 60) as u16;
        let width = 1 + (state >> 16) % 20;
        let height = 1 + (state >> 24) % 16;
        if round % 7 == 0 {
            atlas.begin_frame();
        }
        // a glyph keeps its size: derive it from the id
        let (w, h) = (1 + (id as u32 * 7 + width % 2) % 20, 1 + (id as u32 * 5 + height % 2) % 16);
        let (r, _) = request(&mut atlas, glyph(id), w, h);
        assert!(atlas.contains(&glyph(id)));
        assert_eq!(atlas.entry(&glyph(id)).unwrap().rect, r);
        assert_no_overlap(&atlas);
        for e in atlas.entries().iter() {
            let cells = (e.rect.width * e.rect.height) as usize;
            assert_eq!(atlas.bitmap(&e.key).unwrap(), vec![e.key.glyph_id as u8; cells]);
            assert!(e.last_used <= atlas.frame());
        }
    }
}

#[test]
fn frames_count_up_and_lookups_stamp() {
    let mut atlas = Atlas::new(8, 8);
    assert_eq!(atlas.frame(), 0);
    assert_eq!((atlas.width(), atlas.height()), (8, 8));
    atlas.insert(glyph(1), block(2, 2, 1)).unwrap();
    assert_eq!(atlas.entry(&glyph(1)).unwrap().last_used, 0);
    atlas.begin_frame();
    atlas.begin_frame();
    assert_eq!(atlas.frame(), 2);
    assert_eq!(atlas.entry(&glyph(1)).unwrap().last_used, 0);
    assert_eq!(atlas.lookup(&glyph(2)), None);
    assert_eq!(atlas.lookup(&glyph(1)), Some(rect(0, 0, 2, 2)));
    assert_eq!(atlas.entry(&glyph(1)).unwrap().last_used, 2);
    assert_eq!(atlas.entry(&glyph(2)), None);
    assert_eq!(atlas.bitmap(&glyph(2)), None);
}

#[test]
fn keys_differ_in_any_field() {
    let key = GlyphKey { font_id: 1, glyph_id: 2, scale: 3, sub_x: 1, sub_y: 2 };
    assert_eq!(key, GlyphKey { font_id: 1, glyph_id: 2, scale: 3, sub_x: 1, sub_y: 2 });
    assert_ne!(key, GlyphKey { font_id: 9, ..key });
    assert_ne!(key, GlyphKey { glyph_id: 9, ..key });
    assert_ne!(key, GlyphKey { scale: 9, ..key });
    assert_ne!(key, GlyphKey { sub_x: 0, ..key });
    assert_ne!(key, GlyphKey { sub_y: 0, ..key });
    let mut atlas = Atlas::new(8, 8);
    atlas.insert(key, block(2, 2, 1)).unwrap();
    assert!(!atlas.contains(&GlyphKey { sub_x: 0, ..key }));
    assert_eq!(GlyphKey::new(1, 2, 3), GlyphKey { font_id: 1, glyph_id: 2, scale: 3, sub_x: 0, sub_y: 0 });
}

#[test]
fn disjoint_rectangles_are_told_apart() {
    let a = rect(0, 0, 4, 4);
    assert!(a.is_disjoint_from(&rect(4, 0, 4, 4)));
    assert!(a.is_disjoint_from(&rect(0, 4, 4, 4)));
    assert!(!a.is_disjoint_from(&rect(3, 3, 4, 4)));
    assert!(!a.is_disjoint_from(&a));
    assert!(rect(u32::MAX, 0, u32::MAX, 1).is_disjoint_from(&rect(0, 0, u32::MAX, 1)));
    assert_eq!(Rect::zero(), rect(0, 0, 0, 0));
}

#[test]
fn resolve_tells_hits_from_fresh_glyphs() {
    let mut atlas = Atlas::new(16, 8);
    atlas.begin_frame();
    // a miss without a bitmap: rasterize first
    assert_eq!(atlas.resolve(glyph(1), None), Ok(None));
    assert!(atlas.is_empty());
    assert_eq!(atlas.resolve(glyph(1), Some(block(8, 8, 1))), Ok(Some((rect(0, 0, 8, 8), true))));
    assert_eq!(atlas.resolve(glyph(1), None), Ok(Some((rect(0, 0, 8, 8), false))));
    assert_eq!(atlas.resolve(glyph(1), Some(block(3, 3, 7))), Ok(Some((rect(0, 0, 8, 8), false))));
    assert_eq!(atlas.bitmap(&glyph(1)), Some(vec![1; 64]));
    assert_eq!(
        atlas.resolve(glyph(2), Some(block(17, 1, 2))),
        Err(GlyphTooLarge { width: 17, height: 1 })
    );
    assert_eq!(atlas.resolve(glyph(3), Some(Bitmap::empty())), Ok(Some((rect(0, 0, 0, 0), true))));
    assert_eq!(atlas.len(), 1);
}
