//! An RGBA texture held as bytes, four per pixel, row after row.
use vstd::prelude::*;

verus! {

/// A `width` by `height` image whose pixel `(x, y)` starts at byte
/// `4 * (x + y * width)`, with red, green, blue and alpha in that order.
pub struct Texture {
    pixels: Vec<u8>,
    width: u32,
    height: u32,
}

impl Texture {
    /// The bytes of the image.
    pub closed spec fn bytes(&self) -> Seq<u8> {
        self.pixels@
    }

    pub closed spec fn spec_width(&self) -> nat {
        self.width as nat
    }

    pub closed spec fn spec_height(&self) -> nat {
        self.height as nat
    }

    /// Four bytes for each pixel, no more and no less.
    pub open spec fn wf(&self) -> bool {
        self.bytes().len() == 4 * (self.spec_width() * self.spec_height())
    }

    /// Makes a texture of the given size over `pixels`, which must hold
    /// exactly four bytes per pixel.
    pub fn new(pixels: Vec<u8>, width: u32, height: u32) -> (r: Self)
        requires
            pixels@.len() == 4 * ((width as nat) * (height as nat)),
        ensures
            r.wf(),
            r.bytes() == pixels@,
            r.spec_width() == width,
            r.spec_height() == height,
    {
        Texture { pixels, width, height }
    }

    pub fn width(&self) -> (r: u32)
        ensures
            r == self.spec_width(),
    {
        self.width
    }

    pub fn height(&self) -> (r: u32)
        ensures
            r == self.spec_height(),
    {
        self.height
    }

    /// The red, green and blue bytes of the pixel with linear index
    /// `x + y * width`. Only that index must lie inside the image, so an `x`
    /// of `width` reads the first pixel of the next row.
    pub fn texel(&self, x: usize, y: usize) -> (r: (u8, u8, u8))
        requires
            self.wf(),
            x + y * self.spec_width() < self.spec_width() * self.spec_height(),
        ensures
            ({
                let i = 4 * (x + y * self.spec_width());
                r == (self.bytes()[i], self.bytes()[i + 1], self.bytes()[i + 2])
            }),
    {
        let w = self.width as usize;
        let len = self.pixels.len();
        proof {
            let n = self.spec_width() * self.spec_height();
            assert(len == 4 * n);
            assert(y * w <= n) by (nonlinear_arith)
                requires
                    x + y * w < n,
                    x >= 0,
            ;
            assert(4 * (x + y * w) + 3 < 4 * n) by (nonlinear_arith)
                requires
                    x + y * w < n,
            ;
        }
        let i = 4 * (x + y * w);
        (self.pixels[i], self.pixels[i + 1], self.pixels[i + 2])
    }
}

} // verus!
