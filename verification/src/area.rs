//! Counting texels: rectangles that do not overlap take up no more texels
//! than the atlas has.
//!
//! The proof peels the atlas row by row. The rectangles that reach into the
//! last row stand side by side there, so together they are no wider than the
//! atlas; without that row, induction does the rest. That they are no wider
//! than the atlas is shown the same way, column by column.

use crate::geometry::Rect;
use vstd::prelude::*;

verus! {

/// A block of cells: the columns from `x0` up to `x1` and the rows from `y0`
/// up to `y1`, both without the upper end.
pub struct Cells {
    pub x0: int,
    pub x1: int,
    pub y0: int,
    pub y1: int,
}

/// The smaller of two numbers.
pub open spec fn least(a: int, b: int) -> int {
    if a <= b {
        a
    } else {
        b
    }
}

impl Cells {
    /// The cells of an atlas rectangle.
    pub open spec fn of(r: Rect) -> Cells {
        Cells { x0: r.x as int, x1: r.right(), y0: r.y as int, y1: r.bottom() }
    }

    /// The block lies among the first `w` columns and `h` rows.
    pub open spec fn inside(self, w: int, h: int) -> bool {
        0 <= self.x0 <= self.x1 <= w && 0 <= self.y0 <= self.y1 <= h
    }

    /// A vertical or a horizontal line separates the two blocks.
    pub open spec fn apart(self, other: Cells) -> bool {
        ||| self.x1 <= other.x0
        ||| other.x1 <= self.x0
        ||| self.y1 <= other.y0
        ||| other.y1 <= self.y0
    }

    /// A vertical line separates the two blocks.
    pub open spec fn beside(self, other: Cells) -> bool {
        self.x1 <= other.x0 || other.x1 <= self.x0
    }

    /// The number of cells in the block.
    pub open spec fn count(self) -> int {
        (self.x1 - self.x0) * (self.y1 - self.y0)
    }

    /// The block has cells in row `h - 1` and none below.
    pub open spec fn in_last_row(self, h: int) -> bool {
        self.y0 < h && self.y1 == h
    }

    /// The block holds the cell in column `w - 1` of row `h - 1`, and none to
    /// the right of it or below.
    pub open spec fn in_last_cell(self, w: int, h: int) -> bool {
        self.in_last_row(h) && self.x0 < w && self.x1 == w
    }

    /// The block without what it has in row `h - 1` and below.
    pub open spec fn without_row(self, h: int) -> Cells {
        Cells { y0: least(self.y0, h - 1), y1: least(self.y1, h - 1), ..self }
    }

    /// The block without what it has in column `w - 1` and to the right.
    pub open spec fn without_column(self, w: int) -> Cells {
        Cells { x0: least(self.x0, w - 1), x1: least(self.x1, w - 1), ..self }
    }
}

/// The number of cells in all blocks together, each block counted for itself.
pub open spec fn cells_in(blocks: Seq<Cells>) -> int
    decreases blocks.len(),
{
    if blocks.len() == 0 {
        0
    } else {
        cells_in(blocks.drop_last()) + blocks.last().count()
    }
}

/// The number of cells that the blocks have in row `h - 1`, counting those
/// blocks that end with that row.
pub open spec fn cells_in_last_row(blocks: Seq<Cells>, h: int) -> int
    decreases blocks.len(),
{
    if blocks.len() == 0 {
        0
    } else {
        cells_in_last_row(blocks.drop_last(), h) + if blocks.last().in_last_row(h) {
            blocks.last().x1 - blocks.last().x0
        } else {
            0
        }
    }
}

/// The number of blocks that end with the cell in column `w - 1` of row
/// `h - 1`.
pub open spec fn blocks_in_last_cell(blocks: Seq<Cells>, w: int, h: int) -> int
    decreases blocks.len(),
{
    if blocks.len() == 0 {
        0
    } else {
        blocks_in_last_cell(blocks.drop_last(), w, h) + if blocks.last().in_last_cell(w, h) {
            1int
        } else {
            0int
        }
    }
}

/// All blocks lie among the first `w` columns and `h` rows.
pub open spec fn all_inside(blocks: Seq<Cells>, w: int, h: int) -> bool {
    forall|i: int| 0 <= i < blocks.len() ==> (#[trigger] blocks[i]).inside(w, h)
}

/// No two blocks overlap.
pub open spec fn all_apart(blocks: Seq<Cells>) -> bool {
    forall|i: int, j: int|
        0 <= i < blocks.len() && 0 <= j < blocks.len() && i != j ==> (#[trigger] blocks[i]).apart(
            #[trigger] blocks[j],
        )
}

/// The blocks that end with row `h - 1` stand side by side.
pub open spec fn last_row_beside(blocks: Seq<Cells>, h: int) -> bool {
    forall|i: int, j: int|
        0 <= i < blocks.len() && 0 <= j < blocks.len() && i != j && (#[trigger] blocks[i]).in_last_row(h)
            && (#[trigger] blocks[j]).in_last_row(h) ==> blocks[i].beside(blocks[j])
}

/// The blocks, each without row `h - 1`.
pub open spec fn without_row(blocks: Seq<Cells>, h: int) -> Seq<Cells> {
    blocks.map_values(|c: Cells| c.without_row(h))
}

/// The blocks, each without column `w - 1`.
pub open spec fn without_column(blocks: Seq<Cells>, w: int) -> Seq<Cells> {
    blocks.map_values(|c: Cells| c.without_column(w))
}

proof fn lemma_no_rows_no_cells(blocks: Seq<Cells>, w: int)
    requires
        all_inside(blocks, w, 0),
    ensures
        cells_in(blocks) == 0,
    decreases blocks.len(),
{
    if blocks.len() > 0 {
        assert(blocks.last().inside(w, 0));
        assert forall|i: int| 0 <= i < blocks.drop_last().len() implies (
        #[trigger] blocks.drop_last()[i]).inside(w, 0) by {
            assert(blocks.drop_last()[i] == blocks[i]);
        }
        lemma_no_rows_no_cells(blocks.drop_last(), w);
        assert(blocks.last().count() == 0) by (nonlinear_arith)
            requires
                blocks.last().y1 - blocks.last().y0 == 0,
                blocks.last().count() == (blocks.last().x1 - blocks.last().x0) * (blocks.last().y1
                    - blocks.last().y0),
        ;
    }
}

proof fn lemma_no_columns_no_cells(blocks: Seq<Cells>, h: int)
    requires
        forall|i: int| 0 <= i < blocks.len() ==> (#[trigger] blocks[i]).x0 == blocks[i].x1,
    ensures
        cells_in_last_row(blocks, h) == 0,
    decreases blocks.len(),
{
    if blocks.len() > 0 {
        assert(blocks.last().x0 == blocks.last().x1);
        assert forall|i: int| 0 <= i < blocks.drop_last().len() implies (
        #[trigger] blocks.drop_last()[i]).x0 == blocks.drop_last()[i].x1 by {
            assert(blocks.drop_last()[i] == blocks[i]);
        }
        lemma_no_columns_no_cells(blocks.drop_last(), h);
    }
}

/// Taking the last row away takes away what the blocks have in it.
proof fn lemma_peel_row(blocks: Seq<Cells>, w: int, h: int)
    requires
        all_inside(blocks, w, h),
    ensures
        cells_in(blocks) == cells_in(without_row(blocks, h)) + cells_in_last_row(blocks, h),
    decreases blocks.len(),
{
    if blocks.len() > 0 {
        let init = blocks.drop_last();
        let c = blocks.last();
        assert(c.inside(w, h));
        assert forall|i: int| 0 <= i < init.len() implies (#[trigger] init[i]).inside(w, h) by {
            assert(init[i] == blocks[i]);
        }
        lemma_peel_row(init, w, h);
        assert(without_row(blocks, h).drop_last() =~= without_row(init, h));
        assert(without_row(blocks, h).last() == c.without_row(h));
        let width = c.x1 - c.x0;
        let rest = c.without_row(h);
        if c.in_last_row(h) {
            assert(c.count() == rest.count() + width) by (nonlinear_arith)
                requires
                    c.count() == width * (c.y1 - c.y0),
                    rest.count() == width * (c.y1 - 1 - c.y0),
            ;
        } else if c.y1 == h {
            assert(c.count() == 0 && rest.count() == 0) by (nonlinear_arith)
                requires
                    c.count() == width * (c.y1 - c.y0),
                    rest.count() == width * (rest.y1 - rest.y0),
                    c.y1 == c.y0,
                    rest.y1 == rest.y0,
            ;
        } else {
            assert(rest == c);
        }
    }
}

/// Taking the last column away takes one cell from each block of the last
/// row that ends with it.
proof fn lemma_peel_column(blocks: Seq<Cells>, w: int, h: int)
    requires
        forall|i: int| 0 <= i < blocks.len() ==> (#[trigger] blocks[i]).x0 <= blocks[i].x1 <= w,
    ensures
        cells_in_last_row(blocks, h) == cells_in_last_row(without_column(blocks, w), h)
            + blocks_in_last_cell(blocks, w, h),
    decreases blocks.len(),
{
    if blocks.len() > 0 {
        let init = blocks.drop_last();
        let c = blocks.last();
        assert(c.x0 <= c.x1 <= w);
        assert forall|i: int| 0 <= i < init.len() implies (#[trigger] init[i]).x0 <= init[i].x1 <= w by {
            assert(init[i] == blocks[i]);
        }
        lemma_peel_column(init, w, h);
        assert(without_column(blocks, w).drop_last() =~= without_column(init, w));
        assert(without_column(blocks, w).last() == c.without_column(w));
    }
}

/// Where no block ends with the last cell, none is counted there.
proof fn lemma_none_in_last_cell(blocks: Seq<Cells>, w: int, h: int)
    requires
        forall|i: int| 0 <= i < blocks.len() ==> !(#[trigger] blocks[i]).in_last_cell(w, h),
    ensures
        blocks_in_last_cell(blocks, w, h) == 0,
    decreases blocks.len(),
{
    if blocks.len() > 0 {
        assert(!blocks.last().in_last_cell(w, h));
        assert forall|i: int| 0 <= i < blocks.drop_last().len() implies !(
        #[trigger] blocks.drop_last()[i]).in_last_cell(w, h) by {
            assert(blocks.drop_last()[i] == blocks[i]);
        }
        lemma_none_in_last_cell(blocks.drop_last(), w, h);
    }
}

/// Of blocks that stand side by side in the last row, at most one ends with
/// its last cell.
proof fn lemma_one_in_last_cell(blocks: Seq<Cells>, w: int, h: int)
    requires
        last_row_beside(blocks, h),
    ensures
        blocks_in_last_cell(blocks, w, h) <= 1,
    decreases blocks.len(),
{
    if blocks.len() > 0 {
        let init = blocks.drop_last();
        let c = blocks.last();
        let n = init.len() as int;
        assert forall|i: int, j: int|
            0 <= i < init.len() && 0 <= j < init.len() && i != j && (#[trigger] init[i]).in_last_row(h)
                && (#[trigger] init[j]).in_last_row(h) implies init[i].beside(init[j]) by {
            assert(init[i] == blocks[i] && init[j] == blocks[j]);
        }
        if c.in_last_cell(w, h) {
            assert forall|i: int| 0 <= i < init.len() implies !(#[trigger] init[i]).in_last_cell(w, h) by {
                assert(init[i] == blocks[i]);
                assert(blocks[n] == c);
                if init[i].in_last_cell(w, h) {
                    assert(blocks[i].beside(blocks[n]));
                }
            }
            lemma_none_in_last_cell(init, w, h);
        } else {
            lemma_one_in_last_cell(init, w, h);
        }
    }
}

/// Blocks that stand side by side in the last row have no more cells in it
/// than the row is wide.
proof fn lemma_last_row_fits(blocks: Seq<Cells>, w: int, h: int)
    requires
        0 <= w,
        forall|i: int| 0 <= i < blocks.len() ==> 0 <= (#[trigger] blocks[i]).x0 <= blocks[i].x1 <= w,
        last_row_beside(blocks, h),
    ensures
        cells_in_last_row(blocks, h) <= w,
    decreases w,
{
    if w == 0 {
        lemma_no_columns_no_cells(blocks, h);
    } else {
        let cut = without_column(blocks, w);
        lemma_peel_column(blocks, w, h);
        lemma_one_in_last_cell(blocks, w, h);
        assert forall|i: int| 0 <= i < cut.len() implies 0 <= (#[trigger] cut[i]).x0 <= cut[i].x1 <= w
            - 1 by {
            assert(cut[i] == blocks[i].without_column(w));
            assert(0 <= blocks[i].x0 <= blocks[i].x1 <= w);
        }
        assert forall|i: int, j: int|
            0 <= i < cut.len() && 0 <= j < cut.len() && i != j && (#[trigger] cut[i]).in_last_row(h) && (
            #[trigger] cut[j]).in_last_row(h) implies cut[i].beside(cut[j]) by {
            assert(cut[i] == blocks[i].without_column(w));
            assert(cut[j] == blocks[j].without_column(w));
            assert(blocks[i].in_last_row(h) && blocks[j].in_last_row(h));
            assert(blocks[i].beside(blocks[j]));
        }
        lemma_last_row_fits(cut, w - 1, h);
    }
}

/// Blocks that do not overlap and lie among `w` columns and `h` rows have
/// no more cells between them than there are: `w * h`.
pub proof fn lemma_blocks_fit(blocks: Seq<Cells>, w: int, h: int)
    requires
        0 <= w,
        0 <= h,
        all_inside(blocks, w, h),
        all_apart(blocks),
    ensures
        cells_in(blocks) <= w * h,
    decreases h,
{
    if h == 0 {
        lemma_no_rows_no_cells(blocks, w);
    } else {
        let cut = without_row(blocks, h);
        lemma_peel_row(blocks, w, h);
        assert forall|i: int| 0 <= i < blocks.len() implies 0 <= (#[trigger] blocks[i]).x0 <= blocks[i].x1
            <= w by {
            assert(blocks[i].inside(w, h));
        }
        assert forall|i: int, j: int|
            0 <= i < blocks.len() && 0 <= j < blocks.len() && i != j && (#[trigger] blocks[i]).in_last_row(
                h,
            ) && (#[trigger] blocks[j]).in_last_row(h) implies blocks[i].beside(blocks[j]) by {
            assert(blocks[i].apart(blocks[j]));
        }
        lemma_last_row_fits(blocks, w, h);
        assert forall|i: int| 0 <= i < cut.len() implies (#[trigger] cut[i]).inside(w, h - 1) by {
            assert(cut[i] == blocks[i].without_row(h));
            assert(blocks[i].inside(w, h));
        }
        assert forall|i: int, j: int| 0 <= i < cut.len() && 0 <= j < cut.len() && i != j implies (
        #[trigger] cut[i]).apart(#[trigger] cut[j]) by {
            assert(cut[i] == blocks[i].without_row(h));
            assert(cut[j] == blocks[j].without_row(h));
            assert(blocks[i].apart(blocks[j]));
        }
        lemma_blocks_fit(cut, w, h - 1);
        assert(w * (h - 1) + w == w * h) by (nonlinear_arith);
    }
}

} // verus!
