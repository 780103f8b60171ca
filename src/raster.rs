use vstd::prelude::*;

verus! {

/// One RGBA pixel.
#[derive(Debug, Clone, Copy, PartialEq, Eq, Structural)]
pub struct Rgba {
    pub r: u8,
    pub g: u8,
    pub b: u8,
    pub a: u8,
}

/// The default pixel: black and fully transparent.
pub open spec fn transparent() -> Rgba {
    Rgba { r: 0, g: 0, b: 0, a: 0 }
}

/// A single-channel 8-bit raster, row-major.
pub struct GrayRaster {
    pub width: u32,
    pub height: u32,
    pub pixels: Vec<u8>,
}

/// An RGBA raster with 8 bits per channel, row-major.
pub struct RgbaRaster {
    pub width: u32,
    pub height: u32,
    pub pixels: Vec<Rgba>,
}

impl GrayRaster {
    /// One pixel per position.
    pub open spec fn wf(&self) -> bool {
        self.pixels@.len() == self.width as int * self.height as int
    }

    pub fn width(&self) -> (r: u32)
        ensures
            r == self.width,
    {
        self.width
    }

    pub fn height(&self) -> (r: u32)
        ensures
            r == self.height,
    {
        self.height
    }

    /// The pixel in column `x` and row `y`.
    pub fn get_pixel(&self, x: u32, y: u32) -> (r: u8)
        requires
            self.wf(),
            x < self.width,
            y < self.height,
        ensures
            r == self.pixels@[y * self.width + x],
    {
        let len = self.pixels.len();
        proof {
            assert(y * self.width + x < self.width as int * self.height as int) by (nonlinear_arith)
                requires x < self.width, y < self.height;
            assert(y * self.width <= y * self.width + x);
            assert(len <= usize::MAX);
        }
        self.pixels[(y as usize) * (self.width as usize) + (x as usize)]
    }
}

impl RgbaRaster {
    /// One pixel per position.
    pub open spec fn wf(&self) -> bool {
        self.pixels@.len() == self.width as int * self.height as int
    }

    /// A raster of the given size with every pixel transparent black.
    pub fn new(width: u32, height: u32) -> (r: RgbaRaster)
        requires
            width as int * height as int <= usize::MAX,
        ensures
            r.wf(),
            r.width == width,
            r.height == height,
            forall|i: int| 0 <= i < r.pixels@.len() ==> r.pixels@[i] == transparent(),
    {
        let n = (width as usize) * (height as usize);
        RgbaRaster { width, height, pixels: vec![Rgba { r: 0, g: 0, b: 0, a: 0 }; n] }
    }

    pub fn width(&self) -> (r: u32)
        ensures
            r == self.width,
    {
        self.width
    }

    pub fn height(&self) -> (r: u32)
        ensures
            r == self.height,
    {
        self.height
    }

    /// The pixel in column `x` and row `y`.
    pub fn get_pixel(&self, x: u32, y: u32) -> (r: Rgba)
        requires
            self.wf(),
            x < self.width,
            y < self.height,
        ensures
            r == self.pixels@[y * self.width + x],
    {
        let len = self.pixels.len();
        proof {
            assert(y * self.width + x < self.width as int * self.height as int) by (nonlinear_arith)
                requires x < self.width, y < self.height;
            assert(y * self.width <= y * self.width + x);
            assert(len <= usize::MAX);
        }
        self.pixels[(y as usize) * (self.width as usize) + (x as usize)]
    }
}

} // verus!
