//! The atlas as a mathematical value: what it holds and what each operation
//! makes of it. The executable atlas is proved against these definitions.

use crate::geometry::Rect;
use crate::key::GlyphKey;
use crate::area::{cells_in, lemma_blocks_fit, Cells};
use crate::bitmap::Bitmap;
use crate::order::{lemma_pack_order_permutes, occurs_in, pack_order};
use crate::shelf::{is_packing, lemma_pack_is_packing, lemma_place_avoids, lemma_place_fits, pack, Shelf};
use vstd::prelude::*;

verus! {

/// A glyph's bitmap is wider or taller than the whole atlas.
#[derive(Clone, Copy, Debug, PartialEq, Eq)]
pub struct GlyphTooLarge {
    pub width: u32,
    pub height: u32,
}

/// One cached glyph: where its bitmap lies in the atlas, the frame in which
/// it was last asked for, and whether that place or its contents changed
/// since the last upload.
#[derive(Clone, Copy, Debug, PartialEq, Eq, Structural)]
pub struct AtlasEntry {
    pub key: GlyphKey,
    pub rect: Rect,
    pub last_used: u64,
    pub dirty: bool,
}

/// The atlas as a value: its dimensions, the frame counter, the packing
/// cursor, the live entries in the order in which they entered, and beside
/// each entry its bitmap, row by row.
#[verifier::ext_equal]
pub struct AtlasView {
    pub width: u32,
    pub height: u32,
    pub frame: u64,
    pub shelf: Shelf,
    pub entries: Seq<AtlasEntry>,
    pub bitmaps: Seq<Seq<u8>>,
}

/// A bitmap as a value: width, height, bytes.
pub open spec fn bitmap_view(b: Option<Bitmap>) -> Option<(u32, u32, Seq<u8>)> {
    match b {
        Some(b) => Some((b.width, b.height, b.data@)),
        None => None,
    }
}

/// The index of the entry to evict: the one used longest ago, the first of
/// them where several were last used in the same frame.
pub open spec fn lru(entries: Seq<AtlasEntry>) -> int
    decreases entries.len(),
{
    if entries.len() <= 1 {
        0
    } else {
        let best = lru(entries.drop_last());
        if entries.last().last_used < entries[best].last_used {
            entries.len() - 1
        } else {
            best
        }
    }
}

/// `lru` names an entry, none was used longer ago, and those before it were
/// all used later.
pub proof fn lemma_lru_is_least(entries: Seq<AtlasEntry>)
    requires
        entries.len() > 0,
    ensures
        0 <= lru(entries) < entries.len(),
        forall|j: int|
            0 <= j < entries.len() ==> entries[lru(entries)].last_used <= (#[trigger] entries[j]).last_used,
        forall|j: int|
            0 <= j < lru(entries) ==> entries[lru(entries)].last_used < (#[trigger] entries[j]).last_used,
    decreases entries.len(),
{
    if entries.len() > 1 {
        let init = entries.drop_last();
        lemma_lru_is_least(init);
        assert forall|j: int| 0 <= j < entries.len() implies entries[lru(entries)].last_used <= (
        #[trigger] entries[j]).last_used by {
            if j < init.len() {
                assert(entries[j] == init[j]);
            }
        }
        assert forall|j: int| 0 <= j < lru(entries) implies entries[lru(entries)].last_used < (
        #[trigger] entries[j]).last_used by {
            assert(entries[j] == init[j]);
        }
    }
}

impl AtlasView {
    /// An atlas of the given dimensions that holds nothing, in frame 0.
    pub open spec fn empty(width: u32, height: u32) -> AtlasView {
        AtlasView {
            width,
            height,
            frame: 0,
            shelf: Shelf::start(),
            entries: Seq::empty(),
            bitmaps: Seq::empty(),
        }
    }

    /// What holds of every atlas: each entry has a non-empty rectangle inside
    /// the atlas and behind the cursor, a bitmap of that size and a stamp no
    /// later than the current frame; no two entries share a key, and no two
    /// rectangles overlap.
    pub open spec fn wf(self) -> bool {
        &&& self.entries.len() == self.bitmaps.len()
        &&& self.shelf.within(self.width, self.height)
        &&& forall|i: int|
            0 <= i < self.entries.len() ==> {
                let e = #[trigger] self.entries[i];
                &&& e.rect.width > 0
                &&& e.rect.height > 0
                &&& e.rect.within(self.width, self.height)
                &&& self.shelf.behind(e.rect)
                &&& e.last_used <= self.frame
                &&& self.bitmaps[i].len() == e.rect.area()
            }
        &&& forall|i: int, j: int|
            0 <= i < self.entries.len() && 0 <= j < self.entries.len() && i != j ==> {
                &&& (#[trigger] self.entries[i]).key != (#[trigger] self.entries[j]).key
                &&& self.entries[i].rect.disjoint(self.entries[j].rect)
            }
    }

    /// The glyph `key` is cached.
    pub open spec fn holds(self, key: GlyphKey) -> bool {
        exists|i: int| 0 <= i < self.entries.len() && (#[trigger] self.entries[i]).key == key
    }

    /// The index of the entry for `key`, where the atlas holds it.
    pub open spec fn index_of(self, key: GlyphKey) -> int {
        choose|i: int| 0 <= i < self.entries.len() && (#[trigger] self.entries[i]).key == key
    }

    /// The atlas after entry `i` was asked for: stamped with the current frame.
    pub open spec fn touched(self, i: int) -> AtlasView {
        AtlasView {
            entries: self.entries.update(
                i,
                AtlasEntry { last_used: self.frame, ..self.entries[i] },
            ),
            ..self
        }
    }

    /// The atlas without entry `i`; its rectangle is free, the cursor stays.
    pub open spec fn evicted(self, i: int) -> AtlasView {
        AtlasView { entries: self.entries.remove(i), bitmaps: self.bitmaps.remove(i), ..self }
    }

    /// The sizes (width, height) of the entries' rectangles.
    pub open spec fn sizes(self) -> Seq<(u32, u32)> {
        self.entries.map_values(|e: AtlasEntry| (e.rect.width, e.rect.height))
    }

    /// The sizes that a repack places, in the order in which it places them:
    /// the live entries in packing order, then the new glyph of `w` by `h`.
    pub open spec fn repack_sizes(self, w: u32, h: u32) -> Seq<(u32, u32)> {
        let n = self.entries.len();
        let order = pack_order(self.sizes(), n);
        Seq::new(
            n + 1,
            |j: int|
                if j < n {
                    self.sizes()[order[j] as int]
                } else {
                    (w, h)
                },
        )
    }

    /// The rectangles that a repack gives out, in the order of `repack_sizes`,
    /// and the cursor it leaves; `None` where not everything fits.
    pub open spec fn repack_plan(self, w: u32, h: u32) -> Option<(Seq<Rect>, Shelf)> {
        pack(self.repack_sizes(w, h), self.width, self.height)
    }

    /// The place of entry `i` in the packing order.
    pub open spec fn rank(self, i: int) -> int {
        let order = pack_order(self.sizes(), self.entries.len());
        choose|j: int| 0 <= j < order.len() && #[trigger] order[j] == i
    }

    /// The atlas after a repack that also takes in a new glyph: every entry
    /// keeps its key, stamp and bitmap, gets the rectangle that the plan has
    /// for it and is marked dirty; the new entry comes last.
    pub open spec fn repacked(self, key: GlyphKey, w: u32, h: u32, data: Seq<u8>) -> AtlasView
        recommends
            self.repack_plan(w, h) is Some,
    {
        let n = self.entries.len();
        let (rects, shelf) = self.repack_plan(w, h)->0;
        AtlasView {
            shelf,
            entries: Seq::new(
                n + 1,
                |i: int|
                    if i < n {
                        AtlasEntry { rect: rects[self.rank(i)], dirty: true, ..self.entries[i] }
                    } else {
                        AtlasEntry { key, rect: rects[n as int], last_used: self.frame, dirty: true }
                    },
            ),
            bitmaps: self.bitmaps.push(data),
            ..self
        }
    }

    /// The atlas after as many evictions, least recently used first and at
    /// least one where there is an entry, as it takes until a repack has room
    /// for a new glyph of `w` by `h`.
    pub open spec fn make_room(self, w: u32, h: u32) -> AtlasView
        decreases self.entries.len(),
    {
        if self.entries.len() == 0 {
            self
        } else {
            proof {
                lemma_lru_is_least(self.entries);
            }
            let rest = self.evicted(lru(self.entries));
            if rest.repack_plan(w, h) is Some {
                rest
            } else {
                rest.make_room(w, h)
            }
        }
    }

    /// A hit: the rectangle of `key` and the atlas with that entry stamped;
    /// a miss: nothing, and the atlas as it was.
    pub open spec fn lookup(self, key: GlyphKey) -> (Option<Rect>, AtlasView) {
        if self.holds(key) {
            let i = self.index_of(key);
            (Some(self.entries[i].rect), self.touched(i))
        } else {
            (None, self)
        }
    }

    /// The entry that a new glyph gets: at `rect`, stamped with the current
    /// frame, dirty.
    pub open spec fn fresh(self, key: GlyphKey, rect: Rect) -> AtlasEntry {
        AtlasEntry { key, rect, last_used: self.frame, dirty: true }
    }

    /// Taking in the bitmap `data` of `w` by `h` for `key`.
    ///
    /// An empty bitmap gets the empty rectangle and changes nothing. A key
    /// that is cached already is a hit. A bitmap wider or taller than the
    /// atlas is refused. Else the bitmap goes to the cursor where it fits
    /// there; where it does not, entries are evicted as `make_room` says and
    /// the rest is repacked together with it.
    pub open spec fn insert(self, key: GlyphKey, w: u32, h: u32, data: Seq<u8>) -> (
        Result<Rect, GlyphTooLarge>,
        AtlasView,
    ) {
        if w == 0 || h == 0 {
            (Ok(Rect { x: 0, y: 0, width: 0, height: 0 }), self)
        } else if self.holds(key) {
            let i = self.index_of(key);
            (Ok(self.entries[i].rect), self.touched(i))
        } else if w > self.width || h > self.height {
            (Err(GlyphTooLarge { width: w, height: h }), self)
        } else {
            match self.shelf.place(w, h, self.width, self.height) {
                Some((rect, shelf)) => (
                    Ok(rect),
                    AtlasView {
                        shelf,
                        entries: self.entries.push(self.fresh(key, rect)),
                        bitmaps: self.bitmaps.push(data),
                        ..self
                    },
                ),
                None => {
                    let after = self.make_room(w, h).repacked(key, w, h, data);
                    (Ok(after.entries.last().rect), after)
                },
            }
        }
    }

    /// Resolving `key`, with the glyph's bitmap at hand or not: a hit gives
    /// the rectangle and `false`; a miss with a bitmap takes the bitmap in and
    /// gives its rectangle and `true`, or fails as `insert` does; a miss
    /// without one gives nothing and changes nothing.
    pub open spec fn resolve(self, key: GlyphKey, bitmap: Option<(u32, u32, Seq<u8>)>) -> (
        Result<Option<(Rect, bool)>, GlyphTooLarge>,
        AtlasView,
    ) {
        if self.holds(key) {
            (
                Ok(Some((self.entries[self.index_of(key)].rect, false))),
                self.touched(self.index_of(key)),
            )
        } else {
            match bitmap {
                None => (Ok(None), self),
                Some((w, h, data)) => match self.insert(key, w, h, data).0 {
                    Ok(rect) => (Ok(Some((rect, true))), self.insert(key, w, h, data).1),
                    Err(e) => (Err(e), self.insert(key, w, h, data).1),
                },
            }
        }
    }

    /// The atlas in the next frame.
    pub open spec fn next_frame(self) -> AtlasView {
        AtlasView {
            frame: if self.frame < u64::MAX {
                (self.frame + 1) as u64
            } else {
                self.frame
            },
            ..self
        }
    }

    /// The atlas after an upload: no entry is dirty.
    pub open spec fn cleaned(self) -> AtlasView {
        AtlasView {
            entries: self.entries.map_values(|e: AtlasEntry| AtlasEntry { dirty: false, ..e }),
            ..self
        }
    }

    /// The rectangles and bitmaps of the dirty entries among the first `n`,
    /// in the order of the entries.
    pub open spec fn dirty_regions(self, n: nat) -> Seq<(Rect, Seq<u8>)>
        decreases n,
    {
        if n == 0 {
            Seq::empty()
        } else {
            let before = self.dirty_regions((n - 1) as nat);
            if self.entries[n - 1].dirty {
                before.push((self.entries[n - 1].rect, self.bitmaps[n - 1]))
            } else {
                before
            }
        }
    }

    /// In a well-formed atlas the entry for a key is the only one with it.
    pub proof fn lemma_index_of(self, key: GlyphKey, i: int)
        requires
            self.wf(),
            0 <= i < self.entries.len(),
            self.entries[i].key == key,
        ensures
            self.holds(key),
            self.index_of(key) == i,
    {
        let j = self.index_of(key);
        assert(0 <= j < self.entries.len() && self.entries[j].key == key);
    }

    /// Stamping an entry keeps the atlas well formed.
    pub proof fn lemma_touched_wf(self, i: int)
        requires
            self.wf(),
            0 <= i < self.entries.len(),
        ensures
            self.touched(i).wf(),
    {
        let t = self.touched(i);
        assert forall|a: int| 0 <= a < t.entries.len() implies {
            let e = #[trigger] t.entries[a];
            &&& e.rect.width > 0
            &&& e.rect.height > 0
            &&& e.rect.within(t.width, t.height)
            &&& t.shelf.behind(e.rect)
            &&& e.last_used <= t.frame
            &&& t.bitmaps[a].len() == e.rect.area()
        } by {
            assert(self.entries[a].rect == t.entries[a].rect);
        }
        assert forall|a: int, b: int|
            0 <= a < t.entries.len() && 0 <= b < t.entries.len() && a != b implies {
            &&& (#[trigger] t.entries[a]).key != (#[trigger] t.entries[b]).key
            &&& t.entries[a].rect.disjoint(t.entries[b].rect)
        } by {
            assert(self.entries[a].key == t.entries[a].key);
            assert(self.entries[b].key == t.entries[b].key);
        }
    }

    /// Evicting an entry keeps the atlas well formed, and every entry left
    /// was there before, with its bitmap.
    pub proof fn lemma_evicted_wf(self, i: int)
        requires
            self.wf(),
            0 <= i < self.entries.len(),
        ensures
            self.evicted(i).wf(),
            self.evicted(i).entries.len() == self.entries.len() - 1,
            forall|k: GlyphKey| !self.holds(k) ==> !self.evicted(i).holds(k),
            !self.evicted(i).holds(self.entries[i].key),
    {
        let t = self.evicted(i);
        assert forall|a: int| 0 <= a < t.entries.len() implies {
            let e = #[trigger] t.entries[a];
            &&& e.rect.width > 0
            &&& e.rect.height > 0
            &&& e.rect.within(t.width, t.height)
            &&& t.shelf.behind(e.rect)
            &&& e.last_used <= t.frame
            &&& t.bitmaps[a].len() == e.rect.area()
        } by {
            let src = if a < i { a } else { a + 1 };
            assert(t.entries[a] == self.entries[src]);
            assert(t.bitmaps[a] == self.bitmaps[src]);
        }
        assert forall|a: int, b: int|
            0 <= a < t.entries.len() && 0 <= b < t.entries.len() && a != b implies {
            &&& (#[trigger] t.entries[a]).key != (#[trigger] t.entries[b]).key
            &&& t.entries[a].rect.disjoint(t.entries[b].rect)
        } by {
            let sa = if a < i { a } else { a + 1 };
            let sb = if b < i { b } else { b + 1 };
            assert(t.entries[a] == self.entries[sa]);
            assert(t.entries[b] == self.entries[sb]);
        }
        assert forall|k: GlyphKey| !self.holds(k) implies !t.holds(k) by {
            if t.holds(k) {
                let a = t.index_of(k);
                let src = if a < i { a } else { a + 1 };
                assert(t.entries[a] == self.entries[src]);
            }
        }
        if t.holds(self.entries[i].key) {
            let a = t.index_of(self.entries[i].key);
            let src = if a < i { a } else { a + 1 };
            assert(t.entries[a] == self.entries[src]);
        }
    }

    /// An entry's rank is its place in the packing order.
    pub proof fn lemma_rank(self, i: int)
        requires
            self.entries.len() <= usize::MAX,
            0 <= i < self.entries.len(),
        ensures
            0 <= self.rank(i) < self.entries.len(),
            pack_order(self.sizes(), self.entries.len())[self.rank(i)] == i,
    {
        let order = pack_order(self.sizes(), self.entries.len());
        lemma_pack_order_permutes(self.sizes(), self.entries.len());
        assert(occurs_in(order, i));
    }

    /// A repack that finds room leaves a well-formed atlas that holds what it
    /// held before and the new glyph.
    pub proof fn lemma_repacked_wf(self, key: GlyphKey, w: u32, h: u32, data: Seq<u8>)
        requires
            self.wf(),
            self.entries.len() <= usize::MAX,
            !self.holds(key),
            w > 0,
            h > 0,
            data.len() == w * h,
            self.repack_plan(w, h) is Some,
        ensures
            self.repacked(key, w, h, data).wf(),
            self.repacked(key, w, h, data).entries.len() == self.entries.len() + 1,
            self.repacked(key, w, h, data).entries.last().key == key,
            self.repacked(key, w, h, data).entries.last().rect.width == w,
            self.repacked(key, w, h, data).entries.last().rect.height == h,
    {
        let n = self.entries.len() as int;
        let sizes = self.repack_sizes(w, h);
        let order = pack_order(self.sizes(), n as nat);
        let (rects, shelf) = self.repack_plan(w, h)->0;
        let t = self.repacked(key, w, h, data);
        lemma_pack_is_packing(sizes, self.width, self.height);
        lemma_pack_order_permutes(self.sizes(), n as nat);
        assert(is_packing(sizes, rects, shelf, self.width, self.height));
        assert forall|a: int| 0 <= a < t.entries.len() implies {
            let e = #[trigger] t.entries[a];
            &&& e.rect.width > 0
            &&& e.rect.height > 0
            &&& e.rect.within(t.width, t.height)
            &&& t.shelf.behind(e.rect)
            &&& e.last_used <= t.frame
            &&& t.bitmaps[a].len() == e.rect.area()
        } by {
            if a < n {
                self.lemma_rank(a);
                let r = self.rank(a);
                assert(t.entries[a].rect == rects[r]);
                assert(sizes[r] == self.sizes()[a]);
                assert(self.sizes()[a] == (self.entries[a].rect.width, self.entries[a].rect.height));
                assert(t.bitmaps[a] == self.bitmaps[a]);
                assert(self.entries[a].rect.area() == rects[r].area());
            } else {
                assert(t.entries[a].rect == rects[n]);
                assert(sizes[n] == (w, h));
            }
        }
        assert forall|a: int, b: int|
            0 <= a < t.entries.len() && 0 <= b < t.entries.len() && a != b implies {
            &&& (#[trigger] t.entries[a]).key != (#[trigger] t.entries[b]).key
            &&& t.entries[a].rect.disjoint(t.entries[b].rect)
        } by {
            let ra = if a < n { self.rank(a) } else { n };
            let rb = if b < n { self.rank(b) } else { n };
            if a < n {
                self.lemma_rank(a);
                assert(t.entries[a].key == self.entries[a].key);
            }
            if b < n {
                self.lemma_rank(b);
                assert(t.entries[b].key == self.entries[b].key);
            }
            assert(t.entries[a].rect == rects[ra]);
            assert(t.entries[b].rect == rects[rb]);
            assert(ra != rb);
            assert(rects[ra].disjoint(rects[rb]));
        }
        assert(t.entries[n].rect == rects[n]);
        assert(sizes[n] == (w, h));
    }

    /// A repack of an empty atlas has room for every glyph that is no larger
    /// than the atlas.
    pub proof fn lemma_empty_has_room(self, w: u32, h: u32)
        requires
            self.entries.len() == 0,
            w <= self.width,
            h <= self.height,
        ensures
            self.repack_plan(w, h) is Some,
    {
        let sizes = self.repack_sizes(w, h);
        assert(sizes.len() == 1);
        assert(sizes.drop_last() =~= Seq::<(u32, u32)>::empty());
        assert(sizes.last() == (w, h));
        reveal_with_fuel(pack, 2);
    }

    /// Making room keeps the atlas well formed, leaves room, evicts at least
    /// one entry where there is one, and brings in no key.
    pub proof fn lemma_make_room(self, w: u32, h: u32)
        requires
            self.wf(),
            w <= self.width,
            h <= self.height,
        ensures
            self.make_room(w, h).wf(),
            self.make_room(w, h).repack_plan(w, h) is Some,
            self.make_room(w, h).entries.len() <= self.entries.len(),
            self.entries.len() > 0 ==> self.make_room(w, h).entries.len() < self.entries.len(),
            self.make_room(w, h).width == self.width,
            self.make_room(w, h).height == self.height,
            self.make_room(w, h).frame == self.frame,
            forall|k: GlyphKey| !self.holds(k) ==> !self.make_room(w, h).holds(k),
            self.entries.len() > 0 ==> !self.make_room(w, h).holds(self.entries[lru(self.entries)].key),
        decreases self.entries.len(),
    {
        if self.entries.len() == 0 {
            self.lemma_empty_has_room(w, h);
        } else {
            lemma_lru_is_least(self.entries);
            let victim = lru(self.entries);
            let rest = self.evicted(victim);
            self.lemma_evicted_wf(victim);
            if rest.repack_plan(w, h) is None {
                rest.lemma_make_room(w, h);
            }
        }
    }

    /// Taking a bitmap in keeps the atlas well formed, whatever comes of it.
    pub proof fn lemma_insert_wf(self, key: GlyphKey, w: u32, h: u32, data: Seq<u8>)
        requires
            self.wf(),
            self.entries.len() <= usize::MAX,
            data.len() == w * h,
        ensures
            self.insert(key, w, h, data).1.wf(),
            self.insert(key, w, h, data).1.width == self.width,
            self.insert(key, w, h, data).1.height == self.height,
            self.insert(key, w, h, data).1.frame == self.frame,
    {
        if w == 0 || h == 0 {
        } else if self.holds(key) {
            self.lemma_touched_wf(self.index_of(key));
        } else if w > self.width || h > self.height {
        } else {
            match self.shelf.place(w, h, self.width, self.height) {
                Some((rect, shelf)) => {
                    let t = self.insert(key, w, h, data).1;
                    let n = self.entries.len() as int;
                    lemma_place_fits(self.shelf, w, h, self.width, self.height);
                    assert forall|a: int| 0 <= a < t.entries.len() implies {
                        let e = #[trigger] t.entries[a];
                        &&& e.rect.width > 0
                        &&& e.rect.height > 0
                        &&& e.rect.within(t.width, t.height)
                        &&& t.shelf.behind(e.rect)
                        &&& e.last_used <= t.frame
                        &&& t.bitmaps[a].len() == e.rect.area()
                    } by {
                        if a < n {
                            assert(t.entries[a] == self.entries[a]);
                            assert(t.bitmaps[a] == self.bitmaps[a]);
                            lemma_place_avoids(
                                self.shelf,
                                w,
                                h,
                                self.width,
                                self.height,
                                self.entries[a].rect,
                            );
                        }
                    }
                    assert forall|a: int, b: int|
                        0 <= a < t.entries.len() && 0 <= b < t.entries.len() && a != b implies {
                        &&& (#[trigger] t.entries[a]).key != (#[trigger] t.entries[b]).key
                        &&& t.entries[a].rect.disjoint(t.entries[b].rect)
                    } by {
                        if a < n {
                            assert(t.entries[a] == self.entries[a]);
                            lemma_place_avoids(
                                self.shelf,
                                w,
                                h,
                                self.width,
                                self.height,
                                self.entries[a].rect,
                            );
                        }
                        if b < n {
                            assert(t.entries[b] == self.entries[b]);
                            lemma_place_avoids(
                                self.shelf,
                                w,
                                h,
                                self.width,
                                self.height,
                                self.entries[b].rect,
                            );
                        }
                    }
                },
                None => {
                    self.lemma_make_room(w, h);
                    self.make_room(w, h).lemma_repacked_wf(key, w, h, data);
                },
            }
        }
    }

    /// Looking a glyph up keeps the atlas well formed.
    pub proof fn lemma_lookup_wf(self, key: GlyphKey)
        requires
            self.wf(),
        ensures
            self.lookup(key).1.wf(),
            self.lookup(key).0 is Some <==> self.holds(key),
    {
        if self.holds(key) {
            self.lemma_touched_wf(self.index_of(key));
        }
    }

    /// Moving on to the next frame keeps the atlas well formed.
    pub proof fn lemma_next_frame_wf(self)
        requires
            self.wf(),
        ensures
            self.next_frame().wf(),
    {
        let t = self.next_frame();
        assert forall|a: int| 0 <= a < t.entries.len() implies {
            let e = #[trigger] t.entries[a];
            &&& e.rect.width > 0
            &&& e.rect.height > 0
            &&& e.rect.within(t.width, t.height)
            &&& t.shelf.behind(e.rect)
            &&& e.last_used <= t.frame
            &&& t.bitmaps[a].len() == e.rect.area()
        } by {
            assert(t.entries[a] == self.entries[a]);
        }
    }

    /// The texels of the entries' rectangles, one block for each entry.
    pub open spec fn blocks(self) -> Seq<Cells> {
        self.entries.map_values(|e: AtlasEntry| Cells::of(e.rect))
    }

    /// The number of texels that the entries occupy: the areas of their
    /// rectangles, added up.
    pub open spec fn occupied(self) -> int {
        cells_in(self.blocks())
    }

    /// The entries of a well-formed atlas occupy no more texels than the
    /// atlas has.
    pub proof fn lemma_occupied_fits(self)
        requires
            self.wf(),
        ensures
            self.occupied() <= self.width * self.height,
    {
        let blocks = self.blocks();
        assert forall|i: int| 0 <= i < blocks.len() implies (#[trigger] blocks[i]).inside(
            self.width as int,
            self.height as int,
        ) by {
            assert(blocks[i] == Cells::of(self.entries[i].rect));
        }
        assert forall|i: int, j: int|
            0 <= i < blocks.len() && 0 <= j < blocks.len() && i != j implies (#[trigger] blocks[i]).apart(
            #[trigger] blocks[j],
        ) by {
            assert(blocks[i] == Cells::of(self.entries[i].rect));
            assert(blocks[j] == Cells::of(self.entries[j].rect));
            assert(self.entries[i].rect.disjoint(self.entries[j].rect));
        }
        lemma_blocks_fit(blocks, self.width as int, self.height as int);
    }

    /// No two entries of a well-formed atlas overlap: a line separates their
    /// rectangles, and no texel lies in both.
    pub proof fn lemma_no_overlap(self, i: int, j: int, px: int, py: int)
        requires
            self.wf(),
            0 <= i < self.entries.len(),
            0 <= j < self.entries.len(),
            i != j,
        ensures
            self.entries[i].rect.disjoint(self.entries[j].rect),
            !(self.entries[i].rect.covers(px, py) && self.entries[j].rect.covers(px, py)),
    {
    }

    /// Asking twice for a cached glyph within one frame gives the same
    /// rectangle both times, and the second time changes nothing.
    pub proof fn lemma_hit_twice(self, key: GlyphKey)
        requires
            self.wf(),
            self.holds(key),
        ensures
            ({
                let (first, after) = self.lookup(key);
                let (second, last) = after.lookup(key);
                first is Some && second == first && last == after
            }),
    {
        let i = self.index_of(key);
        let after = self.touched(i);
        self.lemma_touched_wf(i);
        after.lemma_index_of(key, i);
        assert(after.touched(i).entries =~= after.entries);
        assert(after.touched(i) =~= after);
    }

    /// Once a glyph's bitmap is taken in, the glyph is cached where `insert`
    /// said: asking for it in the same frame is a hit on that rectangle and
    /// changes nothing, so that it is rasterized once.
    pub proof fn lemma_insert_then_hit(self, key: GlyphKey, w: u32, h: u32, data: Seq<u8>)
        requires
            self.wf(),
            self.entries.len() <= usize::MAX,
            w > 0,
            h > 0,
            data.len() == w * h,
            self.insert(key, w, h, data).0 is Ok,
        ensures
            ({
                let (placed, after) = self.insert(key, w, h, data);
                &&& after.holds(key)
                &&& after.lookup(key).0 == Some(placed->Ok_0)
                &&& after.lookup(key).1 == after
            }),
    {
        let (placed, after) = self.insert(key, w, h, data);
        self.lemma_insert_wf(key, w, h, data);
        if self.holds(key) {
            self.lemma_hit_twice(key);
        } else {
            let n = after.entries.len() - 1;
            match self.shelf.place(w, h, self.width, self.height) {
                Some((rect, shelf)) => {
                    assert(after.entries[n].key == key);
                },
                None => {
                    self.lemma_make_room(w, h);
                    self.make_room(w, h).lemma_repacked_wf(key, w, h, data);
                    assert(after.entries[n].key == key);
                },
            }
            after.lemma_index_of(key, n);
            assert(after.touched(n).entries =~= after.entries);
            assert(after.touched(n) =~= after);
        }
    }

    /// A glyph resolved once in a frame is resolved again to the same
    /// rectangle without being rasterized anew, and the atlas stays as it is.
    pub proof fn lemma_resolve_twice(
        self,
        key: GlyphKey,
        bitmap: Option<(u32, u32, Seq<u8>)>,
        again: Option<(u32, u32, Seq<u8>)>,
    )
        requires
            self.wf(),
            self.entries.len() <= usize::MAX,
            bitmap matches Some((w, h, data)) ==> w > 0 && h > 0 && data.len() == w * h,
            self.resolve(key, bitmap).0 matches Ok(Some(_)),
        ensures
            ({
                let (first, after) = self.resolve(key, bitmap);
                let (second, last) = after.resolve(key, again);
                &&& second == Ok::<Option<(Rect, bool)>, GlyphTooLarge>(
                    Some((first->Ok_0->Some_0.0, false)),
                )
                &&& last == after
            }),
    {
        if self.holds(key) {
            self.lemma_hit_twice(key);
        } else {
            let (w, h, data) = bitmap->Some_0;
            self.lemma_insert_then_hit(key, w, h, data);
        }
    }

    /// A bitmap wider or taller than the atlas is refused, whatever the atlas
    /// holds, and the atlas stays as it is.
    pub proof fn lemma_too_large_is_refused(self, key: GlyphKey, w: u32, h: u32, data: Seq<u8>)
        requires
            !self.holds(key),
            w > 0,
            h > 0,
            w > self.width || h > self.height,
        ensures
            self.insert(key, w, h, data) == (
                Err::<Rect, GlyphTooLarge>(GlyphTooLarge { width: w, height: h }),
                self,
            ),
    {
    }

    /// A repack changes where entries lie and marks them dirty, and nothing
    /// else: each entry keeps its key, its stamp, its size and its bitmap.
    pub proof fn lemma_repack_keeps_bitmaps(self, key: GlyphKey, w: u32, h: u32, data: Seq<u8>, i: int)
        requires
            self.entries.len() <= usize::MAX,
            self.repack_plan(w, h) is Some,
            0 <= i < self.entries.len(),
            self.entries.len() == self.bitmaps.len(),
        ensures
            ({
                let after = self.repacked(key, w, h, data);
                &&& after.entries[i].key == self.entries[i].key
                &&& after.entries[i].last_used == self.entries[i].last_used
                &&& after.entries[i].rect.width == self.entries[i].rect.width
                &&& after.entries[i].rect.height == self.entries[i].rect.height
                &&& after.entries[i].dirty
                &&& after.bitmaps[i] == self.bitmaps[i]
            }),
    {
        let sizes = self.repack_sizes(w, h);
        let (rects, shelf) = self.repack_plan(w, h)->0;
        lemma_pack_is_packing(sizes, self.width, self.height);
        self.lemma_rank(i);
        let r = self.rank(i);
        assert(sizes[r] == self.sizes()[i]);
        assert(rects[r].width == sizes[r].0);
    }

    /// The entry `e` with the bitmap `b` is one of the atlas.
    pub open spec fn has(self, e: AtlasEntry, b: Seq<u8>) -> bool {
        exists|j: int|
            0 <= j < self.entries.len() && (#[trigger] self.entries[j]) == e && self.bitmaps[j] == b
    }

    /// Every entry of this atlas is one of `origin`, with the same bitmap.
    pub open spec fn kept_from(self, origin: AtlasView) -> bool {
        forall|i: int|
            0 <= i < self.entries.len() ==> origin.has(#[trigger] self.entries[i], self.bitmaps[i])
    }

    /// Making room only takes entries away: what is left was there before,
    /// unchanged, with its bitmap.
    pub proof fn lemma_make_room_keeps(self, w: u32, h: u32)
        requires
            self.wf(),
        ensures
            self.make_room(w, h).kept_from(self),
        decreases self.entries.len(),
    {
        let room = self.make_room(w, h);
        if self.entries.len() == 0 {
        } else {
            lemma_lru_is_least(self.entries);
            let v = lru(self.entries);
            let rest = self.evicted(v);
            self.lemma_evicted_wf(v);
            assert forall|i: int| 0 <= i < rest.entries.len() implies self.has(
                #[trigger] rest.entries[i],
                rest.bitmaps[i],
            ) by {
                let src = if i < v { i } else { i + 1 };
                assert(self.entries[src] == rest.entries[i]);
                assert(self.bitmaps[src] == rest.bitmaps[i]);
            }
            if rest.repack_plan(w, h) is None {
                rest.lemma_make_room_keeps(w, h);
                assert forall|i: int| 0 <= i < room.entries.len() implies self.has(
                    #[trigger] room.entries[i],
                    room.bitmaps[i],
                ) by {
                    assert(rest.has(room.entries[i], room.bitmaps[i]));
                    let j = choose|j: int|
                        0 <= j < rest.entries.len() && (#[trigger] rest.entries[j]) == room.entries[i]
                            && rest.bitmaps[j] == room.bitmaps[i];
                    assert(self.has(rest.entries[j], rest.bitmaps[j]));
                }
            }
        }
    }

    /// Whatever `insert` does, each glyph that is cached afterwards, but for
    /// the new one, was cached before with the same stamp and the same
    /// bitmap: eviction and repack lose and alter no survivor's contents.
    pub proof fn lemma_insert_keeps_bitmaps(self, key: GlyphKey, w: u32, h: u32, data: Seq<u8>, other: GlyphKey)
        requires
            self.wf(),
            self.entries.len() <= usize::MAX,
            data.len() == w * h,
            other != key,
            self.insert(key, w, h, data).1.holds(other),
        ensures
            ({
                let after = self.insert(key, w, h, data).1;
                &&& self.holds(other)
                &&& after.bitmaps[after.index_of(other)] == self.bitmaps[self.index_of(other)]
                &&& after.entries[after.index_of(other)].last_used
                    == self.entries[self.index_of(other)].last_used
                &&& after.entries[after.index_of(other)].rect.width
                    == self.entries[self.index_of(other)].rect.width
                &&& after.entries[after.index_of(other)].rect.height
                    == self.entries[self.index_of(other)].rect.height
            }),
    {
        let after = self.insert(key, w, h, data).1;
        self.lemma_insert_wf(key, w, h, data);
        let k = after.index_of(other);
        if w == 0 || h == 0 {
        } else if self.holds(key) {
            let i = self.index_of(key);
            assert(after.entries[k].key == self.entries[k].key);
            self.lemma_index_of(other, k);
        } else if w > self.width || h > self.height {
        } else {
            match self.shelf.place(w, h, self.width, self.height) {
                Some((rect, shelf)) => {
                    assert(after.entries[k] == self.entries[k]);
                    assert(after.bitmaps[k] == self.bitmaps[k]);
                    self.lemma_index_of(other, k);
                },
                None => {
                    let room = self.make_room(w, h);
                    self.lemma_make_room(w, h);
                    self.lemma_make_room_keeps(w, h);
                    room.lemma_repacked_wf(key, w, h, data);
                    assert(k < room.entries.len());
                    room.lemma_repack_keeps_bitmaps(key, w, h, data, k);
                    assert(self.has(room.entries[k], room.bitmaps[k]));
                    let j = choose|j: int|
                        0 <= j < self.entries.len() && (#[trigger] self.entries[j]) == room.entries[k]
                            && self.bitmaps[j] == room.bitmaps[k];
                    self.lemma_index_of(other, j);
                },
            }
        }
    }

    /// Among the entries that `make_room` finds, those that leave were used
    /// no later than those that stay, and of two used in the same frame the
    /// one that entered first leaves: eviction goes strictly from the least
    /// recently used on.
    pub proof fn lemma_evictions_are_oldest(self, w: u32, h: u32, i: int, j: int)
        requires
            self.wf(),
            w <= self.width,
            h <= self.height,
            0 <= i < self.entries.len(),
            0 <= j < self.entries.len(),
            !self.make_room(w, h).holds(self.entries[i].key),
            self.make_room(w, h).holds(self.entries[j].key),
        ensures
            self.entries[i].last_used < self.entries[j].last_used || (self.entries[i].last_used
                == self.entries[j].last_used && i < j),
        decreases self.entries.len(),
    {
        lemma_lru_is_least(self.entries);
        let v = lru(self.entries);
        let rest = self.evicted(v);
        let room = self.make_room(w, h);
        self.lemma_evicted_wf(v);
        self.lemma_make_room(w, h);
        assert(j != v);
        let j2 = if j < v { j } else { j - 1 };
        assert(rest.entries[j2] == self.entries[j]);
        if i == v {
            assert(self.entries[v].last_used <= self.entries[j].last_used);
            if j < v {
                assert(self.entries[v].last_used < self.entries[j].last_used);
            }
        } else {
            let i2 = if i < v { i } else { i - 1 };
            assert(rest.entries[i2] == self.entries[i]);
            if rest.repack_plan(w, h) is Some {
                assert(rest.holds(self.entries[i].key));
            } else {
                rest.lemma_evictions_are_oldest(w, h, i2, j2);
            }
        }
    }

    /// When the atlas is full, the entry that was used longest ago leaves it.
    pub proof fn lemma_full_evicts_lru(self, key: GlyphKey, w: u32, h: u32, data: Seq<u8>)
        requires
            self.wf(),
            self.entries.len() <= usize::MAX,
            !self.holds(key),
            0 < w <= self.width,
            0 < h <= self.height,
            data.len() == w * h,
            self.entries.len() > 0,
            self.shelf.place(w, h, self.width, self.height) is None,
        ensures
            !self.insert(key, w, h, data).1.holds(self.entries[lru(self.entries)].key),
            self.insert(key, w, h, data).0 is Ok,
            self.insert(key, w, h, data).1.holds(key),
    {
        lemma_lru_is_least(self.entries);
        let victim = self.entries[lru(self.entries)].key;
        let room = self.make_room(w, h);
        let after = room.repacked(key, w, h, data);
        self.lemma_make_room(w, h);
        room.lemma_repacked_wf(key, w, h, data);
        let n = room.entries.len() as int;
        assert(after.entries[n].key == key);
        if after.holds(victim) {
            let k = after.index_of(victim);
            if k < n {
                assert(after.entries[k].key == room.entries[k].key);
                assert(room.holds(victim));
            }
        }
    }
}

} // verus!
