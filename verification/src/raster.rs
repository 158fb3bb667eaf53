//! RGB raster images, rows top to bottom, three bytes a pixel.

use vstd::prelude::*;

verus! {

/// A colour, 8 bits a channel.
#[derive(Debug, Clone, Copy, PartialEq, Eq, Structural, PartialOrd, Ord, Hash)]
pub struct Rgb(pub u8, pub u8, pub u8);

/// An RGB image, rows top to bottom.
#[derive(Debug, Clone, PartialEq, Eq)]
pub struct Image {
    pub width: usize,
    pub height: usize,
    /// `width * height * 3` bytes.
    pub data: Vec<u8>,
}

/// The channel `k` (0, 1 or 2) of a colour.
pub open spec fn channel(c: Rgb, k: int) -> u8 {
    if k == 0 {
        c.0
    } else if k == 1 {
        c.1
    } else {
        c.2
    }
}

/// `n` pixels of one colour, as bytes.
pub open spec fn filled(n: nat, c: Rgb) -> Seq<u8> {
    Seq::new(n * 3, |i: int| channel(c, i % 3))
}

/// Byte offset of pixel `(x, y)` in an image `width` pixels wide.
pub open spec fn pixel_offset(width: int, x: int, y: int) -> int {
    (y * width + x) * 3
}

impl Image {
    /// The image holds exactly three bytes for each of its pixels.
    pub open spec fn wf(&self) -> bool {
        self.data@.len() == self.width * self.height * 3
    }

    /// The colour of pixel `(x, y)` as the bytes hold it.
    pub open spec fn spec_pixel(&self, x: int, y: int) -> Rgb {
        let i = pixel_offset(self.width as int, x, y);
        Rgb(self.data@[i], self.data@[i + 1], self.data@[i + 2])
    }

    /// A `width` by `height` image filled with one colour.
    pub fn new(width: usize, height: usize, fill: Rgb) -> (img: Image)
        requires
            width * height * 3 <= usize::MAX,
        ensures
            img.wf(),
            img.width == width,
            img.height == height,
            img.data@ == filled((width * height) as nat, fill),
    {
        proof {
            assert(0 <= width * height) by (nonlinear_arith);
        }
        let n = width * height;
        let mut data: Vec<u8> = Vec::with_capacity(n * 3);
        let mut k: usize = 0;
        while k < n
            invariant
                k <= n,
                n == width * height,
                n * 3 <= usize::MAX,
                data@ == filled(k as nat, fill),
            decreases n - k,
        {
            data.push(fill.0);
            data.push(fill.1);
            data.push(fill.2);
            k = k + 1;
            assert(data@ =~= filled(k as nat, fill));
        }
        Image { width, height, data }
    }

    /// The colour of pixel `(x, y)`: the three bytes at its offset, which
    /// must lie in the data.
    pub fn pixel(&self, x: usize, y: usize) -> (c: Rgb)
        requires
            pixel_offset(self.width as int, x as int, y as int) + 3 <= self.data@.len(),
        ensures
            c == self.spec_pixel(x as int, y as int),
    {
        let len = self.data.len();
        proof {
            assert(0 <= y * self.width) by (nonlinear_arith);
        }
        assert((y * self.width + x) * 3 + 3 <= len);
        let i = (y * self.width + x) * 3;
        Rgb(self.data[i], self.data[i + 1], self.data[i + 2])
    }

    /// Paints pixel `(x, y)`, whose three bytes must lie in the data;
    /// every other byte stays as it was.
    pub fn set(&mut self, x: usize, y: usize, c: Rgb)
        requires
            pixel_offset(old(self).width as int, x as int, y as int) + 3 <= old(self).data@.len(),
        ensures
            final(self).width == old(self).width,
            final(self).height == old(self).height,
            old(self).wf() ==> final(self).wf(),
            ({
                let i = pixel_offset(old(self).width as int, x as int, y as int);
                final(self).data@ == old(self).data@.update(i, c.0).update(i + 1, c.1).update(
                    i + 2,
                    c.2,
                )
            }),
    {
        let len = self.data.len();
        proof {
            assert(0 <= y * self.width) by (nonlinear_arith);
        }
        assert((y * self.width + x) * 3 + 3 <= len);
        let i = (y * self.width + x) * 3;
        self.data.set(i, c.0);
        self.data.set(i + 1, c.1);
        self.data.set(i + 2, c.2);
    }
}

} // verus!
