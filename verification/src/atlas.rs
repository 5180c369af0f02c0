//! The atlas allocator: which glyphs are cached, where each lies, and what
//! leaves when there is no room.

use crate::bitmap::{copy_bytes, Bitmap};
use crate::geometry::Rect;
use crate::key::GlyphKey;
use crate::model::{bitmap_view, lru, AtlasEntry, AtlasView, GlyphTooLarge};
use crate::order::{is_permutation, lemma_pack_order_permutes, pack_order, packing_order};
use crate::shelf::{lemma_pack_is_packing, pack_all, Shelf};
use vstd::prelude::*;

verus! {

/// A rectangle of the atlas whose contents changed since the last upload,
/// with the bitmap that belongs there, row by row.
#[derive(Debug)]
pub struct DirtyRegion {
    pub rect: Rect,
    pub data: Vec<u8>,
}

/// The rectangle and the bytes of each region.
pub open spec fn regions_view(regions: Seq<DirtyRegion>) -> Seq<(Rect, Seq<u8>)> {
    regions.map_values(|d: DirtyRegion| (d.rect, d.data@))
}

/// A fixed-size atlas of glyph bitmaps.
pub struct Atlas {
    width: u32,
    height: u32,
    frame: u64,
    shelf: Shelf,
    entries: Vec<AtlasEntry>,
    bitmaps: Vec<Vec<u8>>,
}

/// What a repack has worked out: the packing order of the entries, the
/// rectangles in that order with the new glyph's last, and the cursor.
struct RepackPlan {
    order: Vec<usize>,
    rects: Vec<Rect>,
    shelf: Shelf,
}

impl View for Atlas {
    type V = AtlasView;

    closed spec fn view(&self) -> AtlasView {
        AtlasView {
            width: self.width,
            height: self.height,
            frame: self.frame,
            shelf: self.shelf,
            entries: self.entries@,
            bitmaps: self.bitmaps@.map_values(|b: Vec<u8>| b@),
        }
    }
}

impl Atlas {
    /// The atlas is well formed: see `AtlasView::wf`.
    pub open spec fn wf(&self) -> bool {
        self@.wf()
    }

    /// An empty atlas of `width` by `height` texels, in frame 0.
    pub fn new(width: u32, height: u32) -> (a: Atlas)
        ensures
            a@ == AtlasView::empty(width, height),
            a.wf(),
    {
        let a = Atlas {
            width,
            height,
            frame: 0,
            shelf: Shelf::new(),
            entries: Vec::new(),
            bitmaps: Vec::new(),
        };
        assert(a@.bitmaps =~= Seq::empty());
        assert(a@ =~= AtlasView::empty(width, height));
        a
    }

    pub fn width(&self) -> (w: u32)
        ensures
            w == self@.width,
    {
        self.width
    }

    pub fn height(&self) -> (h: u32)
        ensures
            h == self@.height,
    {
        self.height
    }

    /// The current frame, with which lookups stamp what they find.
    pub fn frame(&self) -> (f: u64)
        ensures
            f == self@.frame,
    {
        self.frame
    }

    /// The number of cached glyphs.
    pub fn len(&self) -> (n: usize)
        ensures
            n == self@.entries.len(),
    {
        self.entries.len()
    }

    pub fn is_empty(&self) -> (r: bool)
        ensures
            r == (self@.entries.len() == 0),
    {
        self.entries.len() == 0
    }

    /// The entries, oldest first.
    pub fn entries(&self) -> (r: &Vec<AtlasEntry>)
        ensures
            r@ == self@.entries,
    {
        &self.entries
    }

    /// Moves on to the next frame. The counter stops at its largest value.
    pub fn begin_frame(&mut self)
        requires
            old(self).wf(),
        ensures
            final(self)@ == old(self)@.next_frame(),
            final(self).wf(),
    {
        if self.frame < u64::MAX {
            self.frame = self.frame + 1;
        }
        assert(self@ =~= old(self)@.next_frame());
    }

    /// Where the entry for `key` stands.
    fn find(&self, key: &GlyphKey) -> (r: Option<usize>)
        requires
            self.wf(),
        ensures
            r is Some <==> self@.holds(*key),
            r matches Some(i) ==> i == self@.index_of(*key) && i < self@.entries.len()
                && self@.entries[i as int].key == *key,
    {
        let mut k: usize = 0;
        while k < self.entries.len()
            invariant
                self.wf(),
                k <= self.entries.len(),
                forall|j: int| 0 <= j < k ==> (#[trigger] self.entries@[j]).key != *key,
            decreases self.entries.len() - k,
        {
            if self.entries[k].key == *key {
                proof {
                    self@.lemma_index_of(*key, k as int);
                }
                return Some(k);
            }
            k += 1;
        }
        None
    }

    /// Whether `key` is cached. Nothing is stamped.
    pub fn contains(&self, key: &GlyphKey) -> (r: bool)
        requires
            self.wf(),
        ensures
            r == self@.holds(*key),
    {
        self.find(key).is_some()
    }

    /// The entry for `key`, where it is cached. Nothing is stamped.
    pub fn entry(&self, key: &GlyphKey) -> (r: Option<AtlasEntry>)
        requires
            self.wf(),
        ensures
            r is Some <==> self@.holds(*key),
            r matches Some(e) ==> e == self@.entries[self@.index_of(*key)],
    {
        match self.find(key) {
            Some(i) => Some(self.entries[i]),
            None => None,
        }
    }

    /// The bitmap cached for `key`.
    pub fn bitmap(&self, key: &GlyphKey) -> (r: Option<Vec<u8>>)
        requires
            self.wf(),
        ensures
            r is Some <==> self@.holds(*key),
            r matches Some(data) ==> data@ == self@.bitmaps[self@.index_of(*key)],
    {
        match self.find(key) {
            Some(i) => Some(copy_bytes(&self.bitmaps[i])),
            None => None,
        }
    }

    /// The hit path: the rectangle of `key`, whose entry is stamped with the
    /// current frame; `None` on a miss, which changes nothing.
    pub fn lookup(&mut self, key: &GlyphKey) -> (r: Option<Rect>)
        requires
            old(self).wf(),
        ensures
            (r, final(self)@) == old(self)@.lookup(*key),
            final(self).wf(),
    {
        match self.find(key) {
            Some(i) => {
                let e: AtlasEntry = self.entries[i];
                self.entries.set(
                    i,
                    AtlasEntry { key: e.key, rect: e.rect, last_used: self.frame, dirty: e.dirty },
                );
                proof {
                    old(self)@.lemma_touched_wf(i as int);
                    assert(self@ =~= old(self)@.touched(i as int));
                }
                Some(e.rect)
            },
            None => None,
        }
    }

    /// The entry to evict next.
    fn lru_index(&self) -> (r: usize)
        requires
            self@.entries.len() > 0,
        ensures
            r == lru(self@.entries),
            r < self@.entries.len(),
    {
        let mut best: usize = 0;
        let mut k: usize = 1;
        assert(lru(self.entries@.take(1)) == 0);
        while k < self.entries.len()
            invariant
                1 <= k <= self.entries.len(),
                best < k,
                best == lru(self.entries@.take(k as int)),
            decreases self.entries.len() - k,
        {
            proof {
                let next = self.entries@.take(k + 1);
                assert(next.drop_last() =~= self.entries@.take(k as int));
                assert(next.last() == self.entries@[k as int]);
                assert(next[best as int] == self.entries@[best as int]);
            }
            if self.entries[k].last_used < self.entries[best].last_used {
                best = k;
            }
            k += 1;
        }
        assert(self.entries@.take(k as int) =~= self.entries@);
        best
    }

    /// Takes entry `i` out.
    fn evict(&mut self, i: usize)
        requires
            i < old(self)@.entries.len(),
            old(self)@.entries.len() == old(self)@.bitmaps.len(),
        ensures
            final(self)@ == old(self)@.evicted(i as int),
    {
        self.entries.remove(i);
        self.bitmaps.remove(i);
        assert(self@.bitmaps =~= old(self)@.bitmaps.remove(i as int));
        assert(self@ =~= old(self)@.evicted(i as int));
    }

    /// Works out a repack that also takes in a glyph of `w` by `h`.
    fn plan_repack(&self, w: u32, h: u32) -> (r: Option<RepackPlan>)
        ensures
            match r {
                Some(plan) => {
                    &&& plan.order@ == pack_order(self@.sizes(), self@.entries.len())
                    &&& self@.repack_plan(w, h) == Some((plan.rects@, plan.shelf))
                },
                None => self@.repack_plan(w, h) is None,
            },
    {
        let n: usize = self.entries.len();
        let mut sizes: Vec<(u32, u32)> = Vec::new();
        let mut k: usize = 0;
        while k < n
            invariant
                n == self.entries.len(),
                k <= n,
                sizes@ == self@.sizes().take(k as int),
            decreases n - k,
        {
            let r: Rect = self.entries[k].rect;
            sizes.push((r.width, r.height));
            assert(self@.sizes().take(k + 1) =~= self@.sizes().take(k as int).push(
                self@.sizes()[k as int],
            ));
            k += 1;
        }
        assert(self@.sizes().take(n as int) =~= self@.sizes());
        let order: Vec<usize> = packing_order(&sizes);
        let mut ordered: Vec<(u32, u32)> = Vec::new();
        let mut j: usize = 0;
        while j < n
            invariant
                n == self.entries.len(),
                n == sizes.len(),
                j <= n,
                sizes@ == self@.sizes(),
                order@ == pack_order(self@.sizes(), n as nat),
                is_permutation(order@, n as nat),
                ordered@ == self@.repack_sizes(w, h).take(j as int),
            decreases n - j,
        {
            let i: usize = order[j];
            ordered.push(sizes[i]);
            assert(self@.repack_sizes(w, h).take(j + 1) =~= self@.repack_sizes(w, h).take(
                j as int,
            ).push(self@.repack_sizes(w, h)[j as int]));
            j += 1;
        }
        ordered.push((w, h));
        assert(ordered@ =~= self@.repack_sizes(w, h));
        match pack_all(&ordered, self.width, self.height) {
            Some((rects, shelf)) => Some(RepackPlan { order, rects, shelf }),
            None => None,
        }
    }

    /// Carries a repack out and takes the new glyph in.
    fn apply_repack(&mut self, plan: RepackPlan, key: GlyphKey, w: u32, h: u32, data: Vec<u8>) -> (r: Rect)
        requires
            plan.order@ == pack_order(old(self)@.sizes(), old(self)@.entries.len()),
            old(self)@.repack_plan(w, h) == Some((plan.rects@, plan.shelf)),
        ensures
            final(self)@ == old(self)@.repacked(key, w, h, data@),
            r == final(self)@.entries.last().rect,
    {
        let n: usize = self.entries.len();
        let ghost before = self@;
        let ghost order = plan.order@;
        let ghost rects = plan.rects@;
        proof {
            lemma_pack_order_permutes(before.sizes(), n as nat);
            lemma_pack_is_packing(before.repack_sizes(w, h), self.width, self.height);
        }
        let mut j: usize = 0;
        while j < n
            invariant
                j <= n,
                n == before.entries.len(),
                self.entries.len() == n,
                order == plan.order@,
                rects == plan.rects@,
                rects.len() == n + 1,
                is_permutation(order, n as nat),
                self.width == before.width,
                self.height == before.height,
                self.frame == before.frame,
                self.bitmaps@.map_values(|b: Vec<u8>| b@) == before.bitmaps,
                forall|a: int|
                    0 <= a < j ==> self.entries@[#[trigger] order[a] as int] == (AtlasEntry {
                        rect: rects[a],
                        dirty: true,
                        ..before.entries[order[a] as int]
                    }),
                forall|a: int|
                    j <= a < n ==> self.entries@[#[trigger] order[a] as int]
                        == before.entries[order[a] as int],
            decreases n - j,
        {
            let i: usize = plan.order[j];
            let e: AtlasEntry = self.entries[i];
            let ghost prev = self.entries@;
            self.entries.set(
                i,
                AtlasEntry { key: e.key, rect: plan.rects[j], last_used: e.last_used, dirty: true },
            );
            proof {
                assert forall|a: int| 0 <= a < j + 1 implies self.entries@[#[trigger] order[a] as int]
                    == (AtlasEntry {
                    rect: rects[a],
                    dirty: true,
                    ..before.entries[order[a] as int]
                }) by {
                    if a < j {
                        assert(order[a] != order[j as int]);
                        assert(self.entries@[order[a] as int] == prev[order[a] as int]);
                    }
                }
                assert forall|a: int| j + 1 <= a < n implies self.entries@[#[trigger] order[a] as int]
                    == before.entries[order[a] as int] by {
                    assert(order[a] != order[j as int]);
                    assert(self.entries@[order[a] as int] == prev[order[a] as int]);
                }
            }
            j += 1;
        }
        let rect: Rect = plan.rects[n];
        self.entries.push(AtlasEntry { key, rect, last_used: self.frame, dirty: true });
        self.bitmaps.push(data);
        self.shelf = plan.shelf;
        proof {
            let target = before.repacked(key, w, h, data@);
            assert(self@.entries.len() == target.entries.len());
            assert forall|i: int| 0 <= i < n + 1 implies self@.entries[i] == target.entries[i] by {
                if i < n {
                    before.lemma_rank(i);
                    let a = before.rank(i);
                    assert(order[a] == i);
                }
            }
            assert(self@.entries =~= target.entries);
            assert(self@.bitmaps =~= target.bitmaps);
            assert(self@ =~= target);
        }
        rect
    }

    /// The miss path: takes in the rasterized `bitmap` for `key` and says
    /// where it lies, as `AtlasView::insert` defines.
    ///
    /// The bitmap goes to the packing cursor while there is room. When the
    /// atlas is full, entries leave in least-recently-used order, at least
    /// one, until a repack of the rest has room for the new glyph; that
    /// repack moves every survivor and marks it dirty. A bitmap larger than
    /// the whole atlas is refused and nothing changes. An empty bitmap gets
    /// the empty rectangle and nothing changes; a key that is cached already
    /// is a hit and the bitmap is dropped.
    pub fn insert(&mut self, key: GlyphKey, bitmap: Bitmap) -> (r: Result<Rect, GlyphTooLarge>)
        requires
            old(self).wf(),
            bitmap.wf(),
        ensures
            (r, final(self)@) == old(self)@.insert(key, bitmap.width, bitmap.height, bitmap.data@),
            final(self).wf(),
    {
        let w: u32 = bitmap.width;
        let h: u32 = bitmap.height;
        let data: Vec<u8> = bitmap.data;
        let ghost start = self@;
        proof {
            assert(start.entries.len() == self.entries.len());
            start.lemma_insert_wf(key, w, h, data@);
        }
        if w == 0 || h == 0 {
            return Ok(Rect::zero());
        }
        match self.find(&key) {
            Some(i) => {
                let e: AtlasEntry = self.entries[i];
                self.entries.set(
                    i,
                    AtlasEntry { key: e.key, rect: e.rect, last_used: self.frame, dirty: e.dirty },
                );
                assert(self@ =~= start.touched(i as int));
                return Ok(e.rect);
            },
            None => {},
        }
        if w > self.width || h > self.height {
            return Err(GlyphTooLarge { width: w, height: h });
        }
        match self.shelf.try_place(w, h, self.width, self.height) {
            Some((rect, next)) => {
                self.entries.push(AtlasEntry { key, rect, last_used: self.frame, dirty: true });
                self.bitmaps.push(data);
                self.shelf = next;
                assert(self@.bitmaps =~= start.bitmaps.push(data@));
                assert(self@ =~= start.insert(key, w, h, data@).1);
                return Ok(rect);
            },
            None => {},
        }
        let mut plan: Option<RepackPlan> = None;
        if self.entries.len() == 0 {
            proof {
                start.lemma_empty_has_room(w, h);
            }
            plan = self.plan_repack(w, h);
        }
        while plan.is_none()
            invariant
                self@.wf(),
                self@.width == start.width,
                self@.height == start.height,
                w <= self@.width,
                h <= self@.height,
                match plan {
                    Some(p) => {
                        &&& self@ == start.make_room(w, h)
                        &&& p.order@ == pack_order(self@.sizes(), self@.entries.len())
                        &&& self@.repack_plan(w, h) == Some((p.rects@, p.shelf))
                    },
                    None => self@.entries.len() > 0 && self@.make_room(w, h) == start.make_room(w, h),
                },
            decreases self@.entries.len(),
        {
            let ghost here = self@;
            let victim: usize = self.lru_index();
            proof {
                here.lemma_evicted_wf(victim as int);
            }
            self.evict(victim);
            plan = self.plan_repack(w, h);
            proof {
                if self@.entries.len() == 0 {
                    self@.lemma_empty_has_room(w, h);
                }
            }
        }
        let rect: Rect = self.apply_repack(plan.unwrap(), key, w, h, data);
        Ok(rect)
    }

    /// The atlas holds no more entries than a vector can.
    pub proof fn lemma_len_fits(&self)
        ensures
            self@.entries.len() <= usize::MAX,
    {
        assert(self@.entries.len() == self.entries.len());
    }

    /// Resolves `key` to its rectangle, and says whether the glyph was newly
    /// rasterized. `bitmap` is the rasterized glyph, for the case of a miss.
    ///
    /// A hit returns the rectangle and `false`, stamps the entry and drops
    /// the bitmap. A miss with a bitmap takes it in as `insert` does and
    /// returns its rectangle and `true`; it fails only where the bitmap is
    /// larger than the whole atlas. A miss without a bitmap returns `None`
    /// and changes nothing: the glyph has to be rasterized first.
    pub fn resolve(&mut self, key: GlyphKey, bitmap: Option<Bitmap>) -> (r: Result<
        Option<(Rect, bool)>,
        GlyphTooLarge,
    >)
        requires
            old(self).wf(),
            bitmap matches Some(b) ==> b.wf(),
        ensures
            (r, final(self)@) == old(self)@.resolve(key, bitmap_view(bitmap)),
            final(self).wf(),
    {
        match self.lookup(&key) {
            Some(rect) => Ok(Some((rect, false))),
            None => match bitmap {
                None => Ok(None),
                Some(b) => match self.insert(key, b) {
                    Ok(rect) => Ok(Some((rect, true))),
                    Err(e) => Err(e),
                },
            },
        }
    }

    /// Hands out what has to be uploaded, the rectangle and bitmap of every
    /// dirty entry, oldest entry first, and marks all entries clean.
    pub fn take_dirty(&mut self) -> (r: Vec<DirtyRegion>)
        requires
            old(self).wf(),
        ensures
            regions_view(r@) == old(self)@.dirty_regions(old(self)@.entries.len()),
            final(self)@ == old(self)@.cleaned(),
            final(self).wf(),
    {
        let ghost before = self@;
        let n: usize = self.entries.len();
        let mut out: Vec<DirtyRegion> = Vec::new();
        let mut k: usize = 0;
        assert(regions_view(out@) =~= before.dirty_regions(0));
        while k < n
            invariant
                k <= n,
                n == before.entries.len(),
                before.wf(),
                self.entries.len() == n,
                self.width == before.width,
                self.height == before.height,
                self.frame == before.frame,
                self.shelf == before.shelf,
                self.bitmaps@.map_values(|b: Vec<u8>| b@) == before.bitmaps,
                regions_view(out@) == before.dirty_regions(k as nat),
                forall|i: int|
                    0 <= i < k ==> (#[trigger] self.entries@[i]) == (AtlasEntry {
                        dirty: false,
                        ..before.entries[i]
                    }),
                forall|i: int| k <= i < n ==> (#[trigger] self.entries@[i]) == before.entries[i],
            decreases n - k,
        {
            let e: AtlasEntry = self.entries[k];
            if e.dirty {
                let data: Vec<u8> = copy_bytes(&self.bitmaps[k]);
                let ghost grown = regions_view(out@).push((e.rect, data@));
                out.push(DirtyRegion { rect: e.rect, data });
                assert(regions_view(out@) =~= grown);
                assert(data@ == before.bitmaps[k as int]);
                self.entries.set(
                    k,
                    AtlasEntry { key: e.key, rect: e.rect, last_used: e.last_used, dirty: false },
                );
            }
            k += 1;
        }
        proof {
            assert(self@.entries =~= before.cleaned().entries);
            assert(self@ =~= before.cleaned());
            let t = before.cleaned();
            assert forall|a: int| 0 <= a < t.entries.len() implies {
                let e = #[trigger] t.entries[a];
                &&& e.rect.width > 0
                &&& e.rect.height > 0
                &&& e.rect.within(t.width, t.height)
                &&& t.shelf.behind(e.rect)
                &&& e.last_used <= t.frame
                &&& t.bitmaps[a].len() == e.rect.area()
            } by {
                assert(t.entries[a].rect == before.entries[a].rect);
            }
            assert forall|a: int, b: int|
                0 <= a < t.entries.len() && 0 <= b < t.entries.len() && a != b implies {
                &&& (#[trigger] t.entries[a]).key != (#[trigger] t.entries[b]).key
                &&& t.entries[a].rect.disjoint(t.entries[b].rect)
            } by {
                assert(t.entries[a].key == before.entries[a].key);
                assert(t.entries[b].key == before.entries[b].key);
            }
        }
        out
    }
}

} // verus!
