//! The pixel-buffer model of a rendered page: RGBA pixels in row-major
//! order with the origin at the top-left corner, and the clamped
//! sub-rectangle crop that the pipeline applies to it.

use vstd::prelude::*;
use vstd::arithmetic::div_mod::lemma_fundamental_div_mod_converse;

verus! {

/// One RGBA pixel. The alpha channel distinguishes transparent padding
/// from opaque light pixels; both detectors rely on that distinction.
#[derive(Clone, Copy, Debug, PartialEq, Eq, Structural)]
pub struct Pixel {
    pub r: u8,
    pub g: u8,
    pub b: u8,
    pub a: u8,
}

/// A rectangular pixel buffer: `width * height` pixels, row-major,
/// so the pixel at column `x` of row `y` sits at index `y * width + x`.
#[derive(Debug, PartialEq, Eq)]
pub struct RasterImage {
    pub width: u32,
    pub height: u32,
    pub pixels: Vec<Pixel>,
}

impl RasterImage {
    /// The buffer holds exactly one pixel per coordinate pair.
    pub open spec fn wf(self) -> bool {
        self.pixels@.len() == (self.width as int) * (self.height as int)
    }

    /// The pixel at column `x` of row `y`.
    pub open spec fn pixel_at(self, x: int, y: int) -> Pixel {
        self.pixels@[y * (self.width as int) + x]
    }

    /// Builds an image from a pixel buffer; `None` iff the buffer does not
    /// hold exactly `width * height` pixels.
    pub fn new(width: u32, height: u32, pixels: Vec<Pixel>) -> (r: Option<RasterImage>)
        ensures
            match r {
                Some(img) => {
                    &&& img.wf()
                    &&& img.width == width
                    &&& img.height == height
                    &&& img.pixels@ == pixels@
                },
                None => pixels@.len() != (width as int) * (height as int),
            },
    {
        proof {
            assert((width as int) * (height as int) < 0x1_0000_0000_0000_0000int)
                by (nonlinear_arith)
                requires width < 0x1_0000_0000, height < 0x1_0000_0000,
            ;
        }
        if (width as u64) * (height as u64) == (pixels.len() as u64) {
            Some(RasterImage { width, height, pixels })
        } else {
            None
        }
    }

    /// Read one pixel.
    pub fn pixel(&self, x: u32, y: u32) -> (p: Pixel)
        requires
            self.wf(),
            x < self.width,
            y < self.height,
        ensures
            p == self.pixel_at(x as int, y as int),
    {
        // Binding the length as a `usize` puts its machine bound in scope
        // for the index computation below.
        let _len: usize = self.pixels.len();
        proof {
            assert((y as int) * (self.width as int) + (x as int)
                < (self.width as int) * (self.height as int))
                by (nonlinear_arith)
                requires x < self.width, y < self.height,
            ;
        }
        self.pixels[(y as usize) * (self.width as usize) + (x as usize)]
    }
}

/// Builds an image from a flat byte buffer of 4-byte RGBA groups, as a
/// rasterizer hands them over; `None` iff the length is not `4 * width * height`.
pub fn from_rgba_bytes(width: u32, height: u32, bytes: &Vec<u8>) -> (r: Option<RasterImage>)
    ensures
        match r {
            Some(img) => {
                &&& img.wf()
                &&& img.width == width
                &&& img.height == height
                &&& forall|k: int| 0 <= k < img.pixels@.len() ==> img.pixels@[k]
                    == (Pixel {
                        r: bytes@[4 * k],
                        g: bytes@[4 * k + 1],
                        b: bytes@[4 * k + 2],
                        a: bytes@[4 * k + 3],
                    })
            },
            None => bytes@.len() != 4 * (width as int) * (height as int),
        },
{
    proof {
        assert((width as int) * (height as int) < 0x1_0000_0000_0000_0000int)
            by (nonlinear_arith)
            requires width < 0x1_0000_0000, height < 0x1_0000_0000,
        ;
    }
    let count: u64 = (width as u64) * (height as u64);
    let blen: usize = bytes.len();
    proof {
        assert(count == (width as int) * (height as int));
        assert(blen <= u64::MAX);
        assert(4 * (width as int) * (height as int) == 4 * ((width as int) * (height as int)))
            by (nonlinear_arith);
    }
    if count > u64::MAX / 4 {
        proof {
            assert(4 * (count as int) > u64::MAX);
            assert(bytes@.len() != 4 * (width as int) * (height as int));
        }
        return None;
    }
    if 4 * count != blen as u64 {
        proof {
            assert(bytes@.len() != 4 * (width as int) * (height as int));
        }
        return None;
    }
    let n: usize = count as usize;
    let mut pixels: Vec<Pixel> = Vec::new();
    let mut k: usize = 0;
    while k < n
        invariant
            4 * (n as int) == bytes@.len(),
            n <= blen,
            blen == bytes@.len(),
            k <= n,
            pixels@.len() == k,
            forall|j: int| 0 <= j < k ==> pixels@[j]
                == (Pixel {
                    r: bytes@[4 * j],
                    g: bytes@[4 * j + 1],
                    b: bytes@[4 * j + 2],
                    a: bytes@[4 * j + 3],
                }),
        decreases n - k,
    {
        pixels.push(Pixel {
            r: bytes[4 * k],
            g: bytes[4 * k + 1],
            b: bytes[4 * k + 2],
            a: bytes[4 * k + 3],
        });
        k = k + 1;
    }
    Some(RasterImage { width, height, pixels })
}

/// The left edge of the cropped region: `start` pulled back to the image.
pub open spec fn clamped_start(start: u32, dim: u32) -> int {
    vstd::math::min(start as int, dim as int)
}

/// How many pixels of the requested extent actually fit in the image.
pub open spec fn clamped_len(start: u32, len: u32, dim: u32) -> int {
    vstd::math::min(len as int, dim as int - clamped_start(start, dim))
}

/// `r` is the sub-rectangle of `img` that starts at `(x, y)` and extends
/// `w` by `h` pixels, with the rectangle clamped to the image bounds.
pub open spec fn is_crop_of(r: RasterImage, img: RasterImage, x: u32, y: u32, w: u32, h: u32) -> bool {
    &&& r.wf()
    &&& r.width == clamped_len(x, w, img.width)
    &&& r.height == clamped_len(y, h, img.height)
    &&& forall|i: int, j: int| 0 <= i < r.width && 0 <= j < r.height
        ==> r.pixel_at(i, j) == img.pixel_at(
            clamped_start(x, img.width) + i,
            clamped_start(y, img.height) + j,
        )
}

/// Cuts the `w` by `h` rectangle with top-left corner `(x, y)` out of
/// `img`; the part of the rectangle outside the image is dropped.
pub fn crop(img: &RasterImage, x: u32, y: u32, w: u32, h: u32) -> (r: RasterImage)
    requires
        img.wf(),
    ensures
        is_crop_of(r, *img, x, y, w, h),
{
    let cx: u32 = if x <= img.width { x } else { img.width };
    let cy: u32 = if y <= img.height { y } else { img.height };
    let cw: u32 = if w <= img.width - cx { w } else { img.width - cx };
    let ch: u32 = if h <= img.height - cy { h } else { img.height - cy };
    let mut pixels: Vec<Pixel> = Vec::new();
    let mut j: u32 = 0;
    while j < ch
        invariant
            img.wf(),
            cx + cw <= img.width,
            cy + ch <= img.height,
            j <= ch,
            pixels@.len() == (j as int) * (cw as int),
            forall|k: int| 0 <= k < pixels@.len()
                ==> #[trigger] pixels@[k]
                    == img.pixel_at(cx + (k % (cw as int)), cy + (k / (cw as int))),
        decreases ch - j,
    {
        let mut i: u32 = 0;
        while i < cw
            invariant
                img.wf(),
                cx + cw <= img.width,
                cy + ch <= img.height,
                j < ch,
                i <= cw,
                pixels@.len() == (j as int) * (cw as int) + (i as int),
                forall|k: int| 0 <= k < pixels@.len()
                    ==> #[trigger] pixels@[k]
                        == img.pixel_at(cx + (k % (cw as int)), cy + (k / (cw as int))),
            decreases cw - i,
        {
            let p = img.pixel(cx + i, cy + j);
            pixels.push(p);
            proof {
                let k: int = (j as int) * (cw as int) + (i as int);
                lemma_fundamental_div_mod_converse(k, cw as int, j as int, i as int);
            }
            i = i + 1;
        }
        proof {
            assert(((j as int) + 1) * (cw as int) == (j as int) * (cw as int) + (cw as int))
                by (nonlinear_arith);
        }
        j = j + 1;
    }
    let out = RasterImage { width: cw, height: ch, pixels };
    proof {
        assert((ch as int) * (cw as int) == (cw as int) * (ch as int)) by (nonlinear_arith);
        assert forall|i: int, j2: int| 0 <= i < cw && 0 <= j2 < ch
            implies #[trigger] out.pixel_at(i, j2)
                == img.pixel_at(cx + i, cy + j2) by {
            let k: int = j2 * (cw as int) + i;
            assert(0 <= k < (ch as int) * (cw as int)) by (nonlinear_arith)
                requires
                    0 <= i < cw,
                    0 <= j2 < ch,
                    k == j2 * (cw as int) + i,
            ;
            lemma_fundamental_div_mod_converse(k, cw as int, j2, i);
        }
    }
    out
}

} // verus!
