//! Raster images: a width, a height and the pixels in row-major order.

use vstd::prelude::*;

verus! {

/// What a raster holds: its dimensions and its pixels, row after row.
pub struct RasterView {
    pub width: nat,
    pub height: nat,
    pub pixels: Seq<[u8; 3]>,
}

/// An image of `width` by `height` RGB pixels. The pixel at column `x` of row
/// `y` is entry `y * width + x` of the pixel sequence.
#[derive(Clone, Debug)]
pub struct Raster {
    width: usize,
    height: usize,
    pixels: Vec<[u8; 3]>,
}

impl View for Raster {
    type V = RasterView;

    closed spec fn view(&self) -> RasterView {
        RasterView {
            width: self.width as nat,
            height: self.height as nat,
            pixels: self.pixels@,
        }
    }
}

impl Raster {
    /// The raster holds exactly `width * height` pixels.
    pub open spec fn wf(&self) -> bool {
        self@.pixels.len() == self@.width * self@.height
    }

    /// A raster of the given dimensions over `pixels`, or `None` unless there
    /// are exactly `width * height` of them.
    pub fn new(width: usize, height: usize, pixels: Vec<[u8; 3]>) -> (raster: Option<Raster>)
        ensures
            raster is Some <==> pixels@.len() == width * height,
            raster matches Some(r) ==> r.wf() && r@ == (RasterView {
                width: width as nat,
                height: height as nat,
                pixels: pixels@,
            }),
    {
        let len: usize = pixels.len();
        match width.checked_mul(height) {
            Some(count) => {
                if len == count {
                    Some(Raster { width, height, pixels })
                } else {
                    None
                }
            },
            None => None,
        }
    }

    /// A raster of the given dimensions over exactly `width * height` pixels.
    pub fn from_pixels(width: usize, height: usize, pixels: Vec<[u8; 3]>) -> (raster: Raster)
        requires
            pixels@.len() == width * height,
        ensures
            raster.wf(),
            raster@ == (RasterView {
                width: width as nat,
                height: height as nat,
                pixels: pixels@,
            }),
    {
        Raster { width, height, pixels }
    }

    /// Number of columns.
    pub fn width(&self) -> (width: usize)
        ensures
            width == self@.width,
    {
        self.width
    }

    /// Number of rows.
    pub fn height(&self) -> (height: usize)
        ensures
            height == self@.height,
    {
        self.height
    }

    /// The pixels, row after row.
    pub fn pixels(&self) -> (pixels: &Vec<[u8; 3]>)
        ensures
            pixels@ == self@.pixels,
    {
        &self.pixels
    }

    /// The pixel at column `x` of row `y`.
    pub fn pixel(&self, x: usize, y: usize) -> (color: [u8; 3])
        requires
            self.wf(),
            x < self@.width,
            y < self@.height,
        ensures
            color == self@.pixels[y * self@.width + x],
    {
        proof {
            lemma_position(x as int, y as int, self.width as int, self.height as int);
            assert(self.width * self.height == self.pixels.len() <= usize::MAX);
        }
        self.pixels[y * self.width + x]
    }

    /// Replaces the pixel at column `x` of row `y`.
    pub fn set_pixel(&mut self, x: usize, y: usize, color: [u8; 3])
        requires
            old(self).wf(),
            x < old(self)@.width,
            y < old(self)@.height,
        ensures
            final(self).wf(),
            final(self)@ == (RasterView {
                pixels: old(self)@.pixels.update(y * old(self)@.width + x, color),
                ..old(self)@
            }),
    {
        proof {
            lemma_position(x as int, y as int, self.width as int, self.height as int);
            assert(self.width * self.height == self.pixels.len() <= usize::MAX);
        }
        let index: usize = y * self.width + x;
        self.pixels.set(index, color);
    }
}

/// What each raster of a sequence holds.
pub open spec fn views(frames: Seq<Raster>) -> Seq<RasterView> {
    Seq::new(frames.len(), |i: int| frames[i]@)
}

/// A position inside a raster has a row-major index inside its pixel sequence.
pub proof fn lemma_position(x: int, y: int, width: int, height: int)
    requires
        0 <= x < width,
        0 <= y < height,
    ensures
        0 <= y * width <= y * width + x < width * height,
{
    assert(0 <= y * width && (y + 1) * width <= height * width) by (nonlinear_arith)
        requires
            0 <= y < height,
            0 <= width,
    ;
    assert((y + 1) * width == y * width + width) by (nonlinear_arith);
    assert(height * width == width * height) by (nonlinear_arith);
}

} // verus!
