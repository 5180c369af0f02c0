//! A glyph atlas cache for real-time text rendering.
//!
//! Text is laid out into positioned glyphs, each glyph is resolved to a
//! rectangle of one fixed-size atlas of coverage bitmaps, and the rectangles
//! whose contents changed are handed out for upload once per frame. The atlas
//! packs by shelves, evicts in least-recently-used order and repacks when it
//! is full.

pub mod area;
pub mod arith;
pub mod atlas;
pub mod bitmap;
pub mod font;
pub mod geometry;
pub mod key;
pub mod layout;
pub mod model;
pub mod order;
pub mod renderer;
pub mod shelf;

pub use geometry::{Rect, ScreenRect};
pub use key::{GlyphKey, SUBPIXEL_STEPS};
pub use shelf::Shelf;
pub use atlas::{Atlas, DirtyRegion};
pub use bitmap::Bitmap;
pub use model::{AtlasEntry, AtlasView, GlyphTooLarge};
pub use font::{Typeface, FontLoadError, TypefaceView};
pub use layout::{layout, PositionedGlyph};
pub use renderer::{FontRenderer, Quad, Rasterized, RenderJob, Step};
