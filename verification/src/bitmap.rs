//! Coverage bitmaps as the rasterizer hands them over.

use vstd::prelude::*;

verus! {

/// A glyph's coverage, one byte per pixel, row by row from the top.
#[derive(Debug)]
pub struct Bitmap {
    pub width: u32,
    pub height: u32,
    pub data: Vec<u8>,
}

impl Bitmap {
    /// There is one byte for each pixel.
    pub open spec fn wf(&self) -> bool {
        self.data@.len() == self.width * self.height
    }

    /// A bitmap of `width` by `height` over `data`, where `data` has one byte
    /// for each pixel; `None` where it has not.
    pub fn new(width: u32, height: u32, data: Vec<u8>) -> (r: Option<Bitmap>)
        ensures
            r is Some <==> data@.len() == width * height,
            r matches Some(b) ==> b.width == width && b.height == height && b.data@ == data@ && b.wf(),
    {
        assert(width * height <= 0xFFFF_FFFF * 0xFFFF_FFFF) by (nonlinear_arith)
            requires
                width <= 0xFFFF_FFFF,
                height <= 0xFFFF_FFFF,
        ;
        let cells: u64 = width as u64 * height as u64;
        if data.len() as u64 == cells {
            Some(Bitmap { width, height, data })
        } else {
            None
        }
    }

    /// The bitmap of a glyph without a shape.
    pub fn empty() -> (b: Bitmap)
        ensures
            b.width == 0,
            b.height == 0,
            b.data@.len() == 0,
            b.wf(),
    {
        Bitmap { width: 0, height: 0, data: Vec::new() }
    }
}

/// A copy of `src`.
pub fn copy_bytes(src: &Vec<u8>) -> (r: Vec<u8>)
    ensures
        r@ == src@,
{
    let mut out: Vec<u8> = Vec::new();
    let mut k: usize = 0;
    while k < src.len()
        invariant
            k <= src.len(),
            out@ == src@.take(k as int),
        decreases src.len() - k,
    {
        out.push(src[k]);
        assert(src@.take(k + 1) =~= src@.take(k as int).push(src@[k as int]));
        k += 1;
    }
    assert(src@.take(k as int) =~= src@);
    out
}

} // verus!
