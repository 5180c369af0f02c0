//! The glyph cache as the render loop sees it: a font, an atlas, and the
//! steps that turn a laid-out text into quads.
//!
//! Rasterizing is not done here. A step that meets a glyph the atlas does
//! not hold says which bitmap it needs; the caller rasterizes it and hands it
//! to the next step, or hands over beforehand a sheet of the bitmaps that a
//! text needs.
//!
//! Quads are made when all glyphs of a text have had their step, from the
//! atlas as it is then: an eviction or a repack on the way moves rectangles,
//! and a quad made earlier would point at the wrong texels.

use crate::atlas::{Atlas, DirtyRegion, regions_view};
use crate::bitmap::{copy_bytes, Bitmap};
use crate::font::{glyph_of, Typeface, TypefaceView};
use crate::geometry::{Rect, ScreenRect};
use crate::key::GlyphKey;
use crate::layout::{layout, layout_of, PositionedGlyph};
use crate::model::{bitmap_view, AtlasView, GlyphTooLarge};
use vstd::prelude::*;

verus! {

/// One glyph to draw: the atlas texels to sample and the screen pixels to
/// cover with them.
#[derive(Clone, Copy, Debug, PartialEq, Eq, Structural)]
pub struct Quad {
    pub atlas: Rect,
    pub screen: ScreenRect,
}

/// A rasterized glyph, as a caller hands it over ahead of a text.
#[derive(Debug)]
pub struct Rasterized {
    pub key: GlyphKey,
    pub bitmap: Bitmap,
}

/// What a step came to.
#[derive(Clone, Copy, Debug, PartialEq, Eq)]
pub enum Step {
    /// One glyph is done with: it is cached now, or it was passed over.
    Advanced,
    /// The next glyph is not cached: its bitmap, of this size, is wanted.
    NeedBitmap { key: GlyphKey, width: u32, height: u32 },
    /// No glyph is left.
    Finished,
    /// The next glyph can never fit the atlas.
    Failed(GlyphTooLarge),
}

/// A text on its way to the screen: its glyphs, and how many of them are
/// done with.
pub struct RenderJob {
    glyphs: Vec<PositionedGlyph>,
    next: usize,
}

/// A render job as a value.
#[verifier::ext_equal]
pub struct JobView {
    pub glyphs: Seq<PositionedGlyph>,
    pub next: nat,
}

/// `v` as a `u32`, the largest one where `v` is larger.
pub open spec fn clamp_u32(v: int) -> u32 {
    if v < 0 {
        0
    } else if v > u32::MAX {
        u32::MAX
    } else {
        v as u32
    }
}

impl JobView {
    /// A job that has done nothing yet.
    pub open spec fn start(glyphs: Seq<PositionedGlyph>) -> JobView {
        JobView { glyphs, next: 0 }
    }

    /// The job with its next glyph done with.
    pub open spec fn passed(self) -> JobView {
        JobView { next: self.next + 1, ..self }
    }
}

/// One step of a job on an atlas, given the bitmap that the step before
/// asked for, if any.
///
/// With no glyph left the job is finished. A glyph that covers no pixel is
/// passed over. A cached glyph is a hit: it is stamped. A glyph larger than
/// the atlas fails the job. For any other glyph the step asks for the bitmap
/// when it has none; it takes a bitmap of the glyph's size into the atlas;
/// and it passes the glyph over when the bitmap is of another size or has
/// not one byte for each pixel.
pub open spec fn step_of(atlas: AtlasView, job: JobView, bitmap: Option<(u32, u32, Seq<u8>)>) -> (
    Step,
    AtlasView,
    JobView,
) {
    if job.next >= job.glyphs.len() {
        (Step::Finished, atlas, job)
    } else {
        let g = job.glyphs[job.next as int];
        let w = g.bounds.width();
        let h = g.bounds.height();
        if g.bounds.is_empty() {
            (Step::Advanced, atlas, job.passed())
        } else if atlas.holds(g.key) {
            (Step::Advanced, atlas.touched(atlas.index_of(g.key)), job.passed())
        } else if w > atlas.width || h > atlas.height {
            (
                Step::Failed(GlyphTooLarge { width: clamp_u32(w), height: clamp_u32(h) }),
                atlas,
                job,
            )
        } else {
            match bitmap {
                None => (
                    Step::NeedBitmap { key: g.key, width: w as u32, height: h as u32 },
                    atlas,
                    job,
                ),
                Some((bw, bh, data)) => if bw == w && bh == h && data.len() == w * h {
                    match atlas.insert(g.key, bw, bh, data).0 {
                        Ok(rect) => (
                            Step::Advanced,
                            atlas.insert(g.key, bw, bh, data).1,
                            job.passed(),
                        ),
                        Err(e) => (Step::Failed(e), atlas.insert(g.key, bw, bh, data).1, job),
                    }
                } else {
                    (Step::Advanced, atlas, job.passed())
                },
            }
        }
    }
}

/// A step on a cached glyph asks for no bitmap, whether it is offered one or
/// not: a glyph is rasterized only while the atlas does not hold it.
pub proof fn lemma_hit_needs_no_bitmap(atlas: AtlasView, job: JobView, bitmap: Option<(u32, u32, Seq<u8>)>)
    requires
        job.next < job.glyphs.len(),
        atlas.holds(job.glyphs[job.next as int].key),
    ensures
        step_of(atlas, job, bitmap).0 == Step::Advanced,
        step_of(atlas, job, bitmap) == step_of(atlas, job, None),
{
}

/// A text without glyphs leaves the atlas as it is and gives no quads.
pub proof fn lemma_run_of_nothing(atlas: AtlasView, sheet: Seq<Rasterized>)
    ensures
        run(atlas, JobView::start(Seq::empty()), sheet) == (Ok::<(), GlyphTooLarge>(()), atlas),
        quads_of(atlas, Seq::empty(), 0) == Seq::<Quad>::empty(),
{
}

/// The first bitmap that `sheet` has for `key`.
pub open spec fn sheet_bitmap(sheet: Seq<Rasterized>, key: GlyphKey) -> Option<(u32, u32, Seq<u8>)>
    decreases sheet.len(),
{
    if sheet.len() == 0 {
        None
    } else if sheet[0].key == key {
        Some((sheet[0].bitmap.width, sheet[0].bitmap.height, sheet[0].bitmap.data@))
    } else {
        sheet_bitmap(sheet.drop_first(), key)
    }
}

/// A job run to its end with the bitmaps of `sheet`: whether it failed, and
/// the atlas it leaves. Each glyph takes one step with the sheet's bitmap
/// for it; a glyph that is not cached and not on the sheet is passed over.
pub open spec fn run(atlas: AtlasView, job: JobView, sheet: Seq<Rasterized>) -> (
    Result<(), GlyphTooLarge>,
    AtlasView,
)
    decreases job.glyphs.len() - job.next,
{
    if job.next >= job.glyphs.len() {
        (Ok(()), atlas)
    } else {
        let offered = sheet_bitmap(sheet, job.glyphs[job.next as int].key);
        let (s, a, j) = step_of(atlas, job, offered);
        match s {
            Step::Advanced => run(a, j, sheet),
            Step::NeedBitmap { key, width, height } => run(atlas, job.passed(), sheet),
            Step::Failed(e) => (Err(e), a),
            Step::Finished => (Ok(()), atlas),
        }
    }
}

/// The quads of the first `n` of `glyphs`, in their order: one for each
/// glyph that covers a pixel and is cached, from the rectangle where the
/// atlas holds it to the pixels it covers.
pub open spec fn quads_of(atlas: AtlasView, glyphs: Seq<PositionedGlyph>, n: nat) -> Seq<Quad>
    decreases n,
{
    if n == 0 {
        Seq::empty()
    } else {
        let before = quads_of(atlas, glyphs, (n - 1) as nat);
        let g = glyphs[n - 1];
        if !g.bounds.is_empty() && atlas.holds(g.key) {
            before.push(Quad { atlas: atlas.entries[atlas.index_of(g.key)].rect, screen: g.bounds })
        } else {
            before
        }
    }
}

/// The glyphs among the first `n` of `glyphs` that cover a pixel and are not
/// cached: those whose bitmaps a sheet for them has to hold.
pub open spec fn wanted(atlas: AtlasView, glyphs: Seq<PositionedGlyph>, n: nat) -> Seq<PositionedGlyph>
    decreases n,
{
    if n == 0 {
        Seq::empty()
    } else {
        let before = wanted(atlas, glyphs, (n - 1) as nat);
        let g = glyphs[n - 1];
        if !g.bounds.is_empty() && !atlas.holds(g.key) {
            before.push(g)
        } else {
            before
        }
    }
}

impl View for RenderJob {
    type V = JobView;

    closed spec fn view(&self) -> JobView {
        JobView { glyphs: self.glyphs@, next: self.next as nat }
    }
}

impl RenderJob {
    /// No more glyphs are done with than there are.
    pub open spec fn wf(&self) -> bool {
        self@.next <= self@.glyphs.len()
    }

    /// A job for `glyphs`, none of them done with.
    pub fn new(glyphs: Vec<PositionedGlyph>) -> (job: RenderJob)
        ensures
            job@ == JobView::start(glyphs@),
            job.wf(),
    {
        RenderJob { glyphs, next: 0 }
    }

    /// Whether every glyph is done with.
    pub fn is_finished(&self) -> (r: bool)
        ensures
            r == (self@.next >= self@.glyphs.len()),
    {
        self.next >= self.glyphs.len()
    }

    /// The glyphs of the text, in its order.
    pub fn glyphs(&self) -> (r: &Vec<PositionedGlyph>)
        ensures
            r@ == self@.glyphs,
    {
        &self.glyphs
    }

    /// Passes the next glyph over, where there is one.
    pub fn pass_over(&mut self)
        requires
            old(self).wf(),
        ensures
            final(self)@ == (if old(self)@.next < old(self)@.glyphs.len() {
                old(self)@.passed()
            } else {
                old(self)@
            }),
            final(self).wf(),
    {
        if self.next < self.glyphs.len() {
            self.next = self.next + 1;
        }
    }
}

/// The side `max - min` of a screen rectangle, as a number that holds it.
fn side(min: i64, max: i64) -> (r: i128)
    ensures
        r == max - min,
{
    max as i128 - min as i128
}

/// `v` as a `u32`, the largest one where `v` is larger.
fn clamped_u32(v: i128) -> (r: u32)
    ensures
        r == clamp_u32(v as int),
{
    if v < 0 {
        0
    } else if v > u32::MAX as i128 {
        u32::MAX
    } else {
        v as u32
    }
}

/// The first bitmap that `sheet` has for `key`, copied.
fn find_on_sheet(sheet: &Vec<Rasterized>, key: &GlyphKey) -> (r: Option<Bitmap>)
    ensures
        bitmap_view(r) == sheet_bitmap(sheet@, *key),
{
    let mut k: usize = 0;
    assert(sheet@.skip(0) =~= sheet@);
    while k < sheet.len()
        invariant
            k <= sheet.len(),
            sheet_bitmap(sheet@, *key) == sheet_bitmap(sheet@.skip(k as int), *key),
        decreases sheet.len() - k,
    {
        proof {
            assert(sheet@.skip(k as int)[0] == sheet@[k as int]);
            assert(sheet@.skip(k as int).drop_first() =~= sheet@.skip(k + 1));
        }
        if sheet[k].key == *key {
            let b: &Bitmap = &sheet[k].bitmap;
            return Some(Bitmap { width: b.width, height: b.height, data: copy_bytes(&b.data) });
        }
        k += 1;
    }
    None
}

/// A font renderer as a value: its font and its atlas.
pub struct RendererView {
    pub font: TypefaceView,
    pub atlas: AtlasView,
}

/// A font with the atlas that caches its glyphs.
pub struct FontRenderer {
    font: Typeface,
    atlas: Atlas,
}

impl View for FontRenderer {
    type V = RendererView;

    closed spec fn view(&self) -> RendererView {
        RendererView { font: self.font@, atlas: self.atlas@ }
    }
}

impl FontRenderer {
    /// The atlas is well formed.
    pub open spec fn wf(&self) -> bool {
        self@.atlas.wf()
    }

    /// A renderer for `font` with an empty atlas of `width` by `height`
    /// texels.
    pub fn new(font: Typeface, width: u32, height: u32) -> (r: FontRenderer)
        ensures
            r@.font == font@,
            r@.atlas == AtlasView::empty(width, height),
            r.wf(),
    {
        FontRenderer { font, atlas: Atlas::new(width, height) }
    }

    pub fn font(&self) -> (f: &Typeface)
        ensures
            f@ == self@.font,
    {
        &self.font
    }

    pub fn atlas(&self) -> (a: &Atlas)
        ensures
            a@ == self@.atlas,
    {
        &self.atlas
    }

    /// The glyph that the font has for `c`; glyph 0 where it has none.
    pub fn get_glyph(&self, c: char) -> (g: u16)
        ensures
            g == glyph_of(self@.font.data, c),
    {
        self.font.get_glyph(c)
    }

    /// The glyphs of `glyphs` whose bitmaps have to be rasterized before
    /// they can be drawn: those that cover a pixel and are not cached, in
    /// the order given.
    pub fn missing(&self, glyphs: &Vec<PositionedGlyph>) -> (r: Vec<PositionedGlyph>)
        requires
            self.wf(),
        ensures
            r@ == wanted(self@.atlas, glyphs@, glyphs@.len()),
    {
        let mut out: Vec<PositionedGlyph> = Vec::new();
        let mut k: usize = 0;
        while k < glyphs.len()
            invariant
                self.wf(),
                k <= glyphs.len(),
                out@ == wanted(self@.atlas, glyphs@, k as nat),
            decreases glyphs.len() - k,
        {
            let g: PositionedGlyph = glyphs[k];
            if !g.bounds.has_no_area() && !self.atlas.contains(&g.key) {
                out.push(g);
            }
            k += 1;
        }
        out
    }

    /// Starts on a text: moves the atlas on to the next frame and lays the
    /// text out.
    pub fn begin_text(&mut self, text: &str, scale: u16, origin_x: i32, origin_y: i32) -> (job:
        RenderJob)
        requires
            old(self).wf(),
        ensures
            final(self)@.font == old(self)@.font,
            final(self)@.atlas == old(self)@.atlas.next_frame(),
            final(self).wf(),
            job@ == JobView::start(layout_of(old(self)@.font, text@, scale, origin_x, origin_y)),
            job.wf(),
    {
        self.atlas.begin_frame();
        RenderJob::new(layout(&self.font, text, scale, origin_x, origin_y))
    }

    /// Takes one step of `job`, as `step_of` defines it. `bitmap` is the
    /// rasterized glyph that the step before asked for, if it asked for one.
    pub fn step(&mut self, job: &mut RenderJob, bitmap: Option<Bitmap>) -> (s: Step)
        requires
            old(self).wf(),
            old(job).wf(),
        ensures
            (s, final(self)@.atlas, final(job)@) == step_of(
                old(self)@.atlas,
                old(job)@,
                bitmap_view(bitmap),
            ),
            final(self)@.font == old(self)@.font,
            final(self).wf(),
            final(job).wf(),
            final(job)@.glyphs == old(job)@.glyphs,
    {
        if job.next >= job.glyphs.len() {
            return Step::Finished;
        }
        let g: PositionedGlyph = job.glyphs[job.next];
        if g.bounds.has_no_area() {
            job.next = job.next + 1;
            return Step::Advanced;
        }
        match self.atlas.lookup(&g.key) {
            Some(_) => {
                job.next = job.next + 1;
                return Step::Advanced;
            },
            None => {},
        }
        let w: i128 = side(g.bounds.min_x, g.bounds.max_x);
        let h: i128 = side(g.bounds.min_y, g.bounds.max_y);
        if w > self.atlas.width() as i128 || h > self.atlas.height() as i128 {
            return Step::Failed(GlyphTooLarge { width: clamped_u32(w), height: clamped_u32(h) });
        }
        match bitmap {
            None => Step::NeedBitmap { key: g.key, width: w as u32, height: h as u32 },
            Some(b) => {
                if b.width as i128 == w && b.height as i128 == h {
                    match Bitmap::new(b.width, b.height, b.data) {
                        Some(sound) => {
                            match self.atlas.insert(g.key, sound) {
                                Ok(_) => {
                                    job.next = job.next + 1;
                                    Step::Advanced
                                },
                                Err(e) => Step::Failed(e),
                            }
                        },
                        None => {
                            job.next = job.next + 1;
                            Step::Advanced
                        },
                    }
                } else {
                    job.next = job.next + 1;
                    Step::Advanced
                }
            },
        }
    }

    /// The quads for `glyphs` from the atlas as it is: see `quads_of`.
    /// Nothing is stamped.
    pub fn quads(&self, glyphs: &Vec<PositionedGlyph>) -> (r: Vec<Quad>)
        requires
            self.wf(),
        ensures
            r@ == quads_of(self@.atlas, glyphs@, glyphs@.len()),
    {
        let mut out: Vec<Quad> = Vec::new();
        let mut k: usize = 0;
        while k < glyphs.len()
            invariant
                self.wf(),
                k <= glyphs.len(),
                out@ == quads_of(self@.atlas, glyphs@, k as nat),
            decreases glyphs.len() - k,
        {
            let g: PositionedGlyph = glyphs[k];
            if !g.bounds.has_no_area() {
                match self.atlas.entry(&g.key) {
                    Some(e) => {
                        out.push(Quad { atlas: e.rect, screen: g.bounds });
                    },
                    None => {},
                }
            }
            k += 1;
        }
        out
    }

    /// Renders `text`: lays it out, sees each glyph into the atlas and
    /// returns the quads to draw, in the order of the text.
    ///
    /// `sheet` holds the rasterized glyphs that the text may need and the
    /// atlas does not hold; `missing` tells which. A glyph that covers no
    /// pixel gives no quad, and neither does one that is not cached in the
    /// end: one that was not on the sheet, or that had to leave again for a
    /// later glyph of the text. A glyph larger than the atlas fails the whole
    /// text. The atlas moves on by one frame. What has to be uploaded
    /// afterwards is what `take_dirty` hands out.
    pub fn render_text(
        &mut self,
        text: &str,
        scale: u16,
        origin_x: i32,
        origin_y: i32,
        sheet: &Vec<Rasterized>,
    ) -> (r: Result<Vec<Quad>, GlyphTooLarge>)
        requires
            old(self).wf(),
        ensures
            final(self)@.font == old(self)@.font,
            final(self).wf(),
            ({
                let glyphs = layout_of(old(self)@.font, text@, scale, origin_x, origin_y);
                let (outcome, atlas) = run(old(self)@.atlas.next_frame(), JobView::start(glyphs), sheet@);
                &&& final(self)@.atlas == atlas
                &&& match r {
                    Ok(q) => outcome is Ok && q@ == quads_of(atlas, glyphs, glyphs.len()),
                    Err(e) => outcome == Err::<(), GlyphTooLarge>(e),
                }
            }),
    {
        let mut job: RenderJob = self.begin_text(text, scale, origin_x, origin_y);
        let ghost goal = run(self@.atlas, job@, sheet@);
        while !job.is_finished()
            invariant
                self.wf(),
                job.wf(),
                self@.font == old(self)@.font,
                job@.glyphs == layout_of(old(self)@.font, text@, scale, origin_x, origin_y),
                run(self@.atlas, job@, sheet@) == goal,
                goal == run(
                    old(self)@.atlas.next_frame(),
                    JobView::start(layout_of(old(self)@.font, text@, scale, origin_x, origin_y)),
                    sheet@,
                ),
            decreases job@.glyphs.len() - job@.next,
        {
            let ghost here = self@.atlas;
            let ghost at = job@;
            let ghost offered = sheet_bitmap(sheet@, at.glyphs[at.next as int].key);
            match self.step(&mut job, None) {
                Step::Advanced => {
                    assert(step_of(here, at, offered) == step_of(here, at, None));
                },
                Step::Finished => {},
                Step::Failed(e) => {
                    assert(step_of(here, at, offered) == step_of(here, at, None));
                    return Err(e);
                },
                Step::NeedBitmap { key, width, height } => {
                    assert(key == at.glyphs[at.next as int].key);
                    match find_on_sheet(sheet, &key) {
                        None => {
                            job.pass_over();
                        },
                        Some(b) => {
                            let s2: Step = self.step(&mut job, Some(b));
                            assert(s2 is Advanced || s2 is Failed);
                            match s2 {
                                Step::Failed(e) => {
                                    return Err(e);
                                },
                                _ => {},
                            }
                        },
                    }
                },
            }
        }
        Ok(self.quads(&job.glyphs))
    }

    /// Hands out the regions to upload and marks the atlas clean: see
    /// `Atlas::take_dirty`.
    pub fn take_dirty(&mut self) -> (r: Vec<DirtyRegion>)
        requires
            old(self).wf(),
        ensures
            regions_view(r@) == old(self)@.atlas.dirty_regions(old(self)@.atlas.entries.len()),
            final(self)@.atlas == old(self)@.atlas.cleaned(),
            final(self)@.font == old(self)@.font,
            final(self).wf(),
    {
        self.atlas.take_dirty()
    }
}

} // verus!
