//! Shelf packing: rectangles are placed left to right in rows, and a new row
//! starts below the current one when a rectangle does not fit in it.

use crate::geometry::Rect;
use vstd::prelude::*;

verus! {

/// The packing cursor: the next free column `x` of the current row, the top
/// `y` of that row and the row's height, which its first rectangle sets.
#[derive(Clone, Copy, Debug, PartialEq, Eq, Structural)]
pub struct Shelf {
    pub x: u32,
    pub y: u32,
    pub row_h: u32,
}

impl Shelf {
    /// The cursor of an empty atlas: top left, in a row of no height.
    pub open spec fn start() -> Shelf {
        Shelf { x: 0, y: 0, row_h: 0 }
    }

    /// The cursor and its row lie inside the atlas.
    pub open spec fn within(self, width: u32, height: u32) -> bool {
        self.x <= width && self.y + self.row_h <= height
    }

    /// `r` lies where the cursor has already passed: in a row above the
    /// current one, or in the current row left of the cursor.
    pub open spec fn behind(self, r: Rect) -> bool {
        ||| r.bottom() <= self.y
        ||| (r.y == self.y && r.right() <= self.x && r.height <= self.row_h)
    }

    /// Where a rectangle of `w` by `h` goes, and the cursor after it: at the
    /// cursor when it is no taller than the row and the row has the room;
    /// else at the left edge of a new row right below the current one, when
    /// that row fits in the atlas; else nowhere.
    pub open spec fn place(self, w: u32, h: u32, width: u32, height: u32) -> Option<(Rect, Shelf)> {
        if h <= self.row_h && self.x + w <= width {
            Some(
                (
                    Rect { x: self.x, y: self.y, width: w, height: h },
                    Shelf { x: (self.x + w) as u32, y: self.y, row_h: self.row_h },
                ),
            )
        } else if w <= width && self.y + self.row_h + h <= height {
            let top = (self.y + self.row_h) as u32;
            Some((Rect { x: 0, y: top, width: w, height: h }, Shelf { x: w, y: top, row_h: h }))
        } else {
            None
        }
    }

    /// The cursor of an empty atlas.
    pub fn new() -> (s: Shelf)
        ensures
            s == Shelf::start(),
    {
        Shelf { x: 0, y: 0, row_h: 0 }
    }

    /// Places one rectangle, as `place` says.
    pub fn try_place(&self, w: u32, h: u32, width: u32, height: u32) -> (r: Option<(Rect, Shelf)>)
        ensures
            r == self.place(w, h, width, height),
    {
        let below: u64 = self.y as u64 + self.row_h as u64;
        if h <= self.row_h && self.x as u64 + w as u64 <= width as u64 {
            Some(
                (
                    Rect { x: self.x, y: self.y, width: w, height: h },
                    Shelf { x: self.x + w, y: self.y, row_h: self.row_h },
                ),
            )
        } else if w <= width && below + h as u64 <= height as u64 {
            let top: u32 = self.y + self.row_h;
            Some((Rect { x: 0, y: top, width: w, height: h }, Shelf { x: w, y: top, row_h: h }))
        } else {
            None
        }
    }
}

/// A placed rectangle has the size asked for, lies inside the atlas and
/// behind the new cursor, which stays inside the atlas.
pub proof fn lemma_place_fits(s: Shelf, w: u32, h: u32, width: u32, height: u32)
    requires
        s.within(width, height),
        s.place(w, h, width, height) is Some,
    ensures
        ({
            let (r, next) = s.place(w, h, width, height)->0;
            &&& r.width == w
            &&& r.height == h
            &&& r.within(width, height)
            &&& next.within(width, height)
            &&& next.behind(r)
        }),
{
}

/// A placed rectangle is disjoint from every rectangle behind the cursor, and
/// what was behind the cursor stays behind the new one.
pub proof fn lemma_place_avoids(s: Shelf, w: u32, h: u32, width: u32, height: u32, q: Rect)
    requires
        s.within(width, height),
        s.place(w, h, width, height) is Some,
        s.behind(q),
    ensures
        ({
            let (r, next) = s.place(w, h, width, height)->0;
            q.disjoint(r) && r.disjoint(q) && next.behind(q)
        }),
{
}

/// The rectangles that `sizes` (width, height) get when they are placed one
/// after the other into an empty atlas, and the cursor left behind; `None`
/// when one of them finds no place.
pub open spec fn pack(sizes: Seq<(u32, u32)>, width: u32, height: u32) -> Option<(Seq<Rect>, Shelf)>
    decreases sizes.len(),
{
    if sizes.len() == 0 {
        Some((Seq::empty(), Shelf::start()))
    } else {
        match pack(sizes.drop_last(), width, height) {
            None => None,
            Some((rects, shelf)) => match shelf.place(sizes.last().0, sizes.last().1, width, height) {
                None => None,
                Some((r, next)) => Some((rects.push(r), next)),
            },
        }
    }
}

/// What a packing must meet: one rectangle per size, of that size, inside
/// the atlas and behind the cursor, no two of them overlapping.
pub open spec fn is_packing(
    sizes: Seq<(u32, u32)>,
    rects: Seq<Rect>,
    shelf: Shelf,
    width: u32,
    height: u32,
) -> bool {
    &&& rects.len() == sizes.len()
    &&& shelf.within(width, height)
    &&& forall|i: int|
        0 <= i < rects.len() ==> {
            &&& (#[trigger] rects[i]).width == sizes[i].0
            &&& rects[i].height == sizes[i].1
            &&& rects[i].within(width, height)
            &&& shelf.behind(rects[i])
        }
    &&& forall|i: int, j: int|
        0 <= i < rects.len() && 0 <= j < rects.len() && i != j ==> (#[trigger] rects[i]).disjoint(
            #[trigger] rects[j],
        )
}

/// Whatever `pack` returns is a packing.
pub proof fn lemma_pack_is_packing(sizes: Seq<(u32, u32)>, width: u32, height: u32)
    requires
        pack(sizes, width, height) is Some,
    ensures
        ({
            let (rects, shelf) = pack(sizes, width, height)->0;
            is_packing(sizes, rects, shelf, width, height)
        }),
    decreases sizes.len(),
{
    if sizes.len() > 0 {
        let init = sizes.drop_last();
        lemma_pack_is_packing(init, width, height);
        let (rects, shelf) = pack(init, width, height)->0;
        let (w, h) = sizes.last();
        lemma_place_fits(shelf, w, h, width, height);
        let (r, next) = shelf.place(w, h, width, height)->0;
        let all = rects.push(r);
        assert forall|i: int| 0 <= i < all.len() implies {
            &&& (#[trigger] all[i]).width == sizes[i].0
            &&& all[i].height == sizes[i].1
            &&& all[i].within(width, height)
            &&& next.behind(all[i])
        } by {
            if i < rects.len() {
                assert(all[i] == rects[i]);
                assert(sizes[i] == init[i]);
                lemma_place_avoids(shelf, w, h, width, height, rects[i]);
            }
        }
        assert forall|i: int, j: int|
            0 <= i < all.len() && 0 <= j < all.len() && i != j implies (#[trigger] all[i]).disjoint(
            #[trigger] all[j],
        ) by {
            if i < rects.len() {
                assert(all[i] == rects[i]);
                lemma_place_avoids(shelf, w, h, width, height, rects[i]);
            }
            if j < rects.len() {
                assert(all[j] == rects[j]);
                lemma_place_avoids(shelf, w, h, width, height, rects[j]);
            }
        }
    }
}

/// Where the first `k` sizes cannot be packed, the whole sequence cannot.
pub proof fn lemma_pack_fails_from_prefix(sizes: Seq<(u32, u32)>, k: int, width: u32, height: u32)
    requires
        0 <= k <= sizes.len(),
        pack(sizes.take(k), width, height) is None,
    ensures
        pack(sizes, width, height) is None,
    decreases sizes.len() - k,
{
    if k == sizes.len() {
        assert(sizes.take(k) =~= sizes);
    } else {
        assert(sizes.drop_last().take(k) =~= sizes.take(k));
        lemma_pack_fails_from_prefix(sizes.drop_last(), k, width, height);
    }
}

/// Packs `sizes` into an empty atlas of `width` by `height`, in the order
/// given: the rectangles and the cursor after the last one, or `None` when
/// one of them finds no place.
pub fn pack_all(sizes: &Vec<(u32, u32)>, width: u32, height: u32) -> (r: Option<(Vec<Rect>, Shelf)>)
    ensures
        match r {
            Some((rects, shelf)) => pack(sizes@, width, height) == Some((rects@, shelf)),
            None => pack(sizes@, width, height) is None,
        },
{
    let mut rects: Vec<Rect> = Vec::new();
    let mut shelf: Shelf = Shelf::new();
    let mut k: usize = 0;
    assert(sizes@.take(0) =~= Seq::<(u32, u32)>::empty());
    while k < sizes.len()
        invariant
            k <= sizes.len(),
            pack(sizes@.take(k as int), width, height) == Some((rects@, shelf)),
        decreases sizes.len() - k,
    {
        proof {
            lemma_pack_is_packing(sizes@.take(k as int), width, height);
            assert(sizes@.take(k + 1).drop_last() =~= sizes@.take(k as int));
            assert(sizes@.take(k + 1).last() == sizes@[k as int]);
        }
        let (w, h): (u32, u32) = sizes[k];
        match shelf.try_place(w, h, width, height) {
            None => {
                proof {
                    lemma_pack_fails_from_prefix(sizes@, k + 1, width, height);
                }
                return None;
            },
            Some((r, next)) => {
                rects.push(r);
                shelf = next;
            },
        }
        k += 1;
    }
    assert(sizes@.take(k as int) =~= sizes@);
    Some((rects, shelf))
}

} // verus!
