//! Pictures: pixels in rows, as the tile sheet and the drawings hold them.

use vstd::arithmetic::div_mod::{lemma_fundamental_div_mod, lemma_fundamental_div_mod_converse};
use vstd::prelude::*;

verus! {

/// A picture: `height` rows of `width` pixels each, row by row from the top. A pixel is
/// its four channels in one number.
#[derive(Clone, Debug, PartialEq, Eq)]
pub struct Picture {
    width: u32,
    height: u32,
    pixels: Vec<u32>,
}

pub struct PictureView {
    pub width: nat,
    pub height: nat,
    pub pixels: Seq<u32>,
}

impl PictureView {
    /// A picture holds as many pixels as its width and its height say.
    pub open spec fn well_formed(self) -> bool {
        self.pixels.len() == self.width * self.height
    }

    /// The pixel in the column `x` of the row `y`.
    pub open spec fn pixel(self, x: int, y: int) -> u32 {
        self.pixels[y * self.width + x]
    }

    /// Whether `other` lies inside this picture with its top left corner at `(x, y)`.
    pub open spec fn holds(self, other: PictureView, x: int, y: int) -> bool {
        x + other.width <= self.width && y + other.height <= self.height
    }

    /// The picture with `other` pasted over it, the top left corner of `other` at
    /// `(x, y)`: inside the frame of `other` its pixels, outside the pixels that were there.
    pub open spec fn pasted(self, other: PictureView, x: int, y: int) -> PictureView {
        PictureView {
            width: self.width,
            height: self.height,
            pixels: Seq::new(
                self.pixels.len(),
                |k: int|
                    {
                        let column = k % (self.width as int);
                        let row = k / (self.width as int);
                        if x <= column < x + other.width && y <= row < y + other.height {
                            other.pixel(column - x, row - y)
                        } else {
                            self.pixels[k]
                        }
                    },
            ),
        }
    }

    /// The `count` rows from the row `top` on, as a picture of their own.
    pub open spec fn rows(self, top: int, count: int) -> PictureView {
        PictureView {
            width: self.width,
            height: count as nat,
            pixels: self.pixels.subrange(top * self.width, (top + count) * self.width),
        }
    }

    /// The picture painted over through a mask: pixel by pixel in the order of the
    /// rows, where the pixel of `mask` has the colour `color`, the pixel of `source`
    /// takes the place of the pixel that was there. Behind the end of `source` or of
    /// `mask` nothing is painted.
    pub open spec fn painted(self, source: Seq<u32>, mask: Seq<u32>, color: u32) -> PictureView {
        PictureView {
            width: self.width,
            height: self.height,
            pixels: Seq::new(
                self.pixels.len(),
                |k: int|
                    if k < source.len() && k < mask.len() && mask[k] == color {
                        source[k]
                    } else {
                        self.pixels[k]
                    },
            ),
        }
    }
}

impl View for Picture {
    type V = PictureView;

    closed spec fn view(&self) -> PictureView {
        PictureView {
            width: self.width as nat,
            height: self.height as nat,
            pixels: self.pixels@,
        }
    }
}

/// The product of a width and a height is not negative, and grows with both.
proof fn lemma_area(width: int, height: int, x: int, y: int)
    requires
        0 <= x < width,
        0 <= y < height,
    ensures
        0 <= y * width + x < width * height,
        y * width + width <= width * height,
{
    assert(y * width + width <= width * height) by (nonlinear_arith)
        requires
            0 <= y < height,
            0 <= width,
    ;
    assert(0 <= y * width) by (nonlinear_arith)
        requires
            0 <= y,
            0 <= width,
    ;
}

impl Picture {
    /// A picture holds as many pixels as its width and its height say. Every picture
    /// that this module hands out does.
    pub open spec fn well_formed(&self) -> bool {
        self@.well_formed()
    }

    /// A picture of the given size, every channel of every pixel zero. `None` where the
    /// channels of the picture are more than can be counted.
    pub fn new(width: u32, height: u32) -> (r: Option<Picture>)
        ensures
            match r {
                Some(p) => width * height * 4 <= usize::MAX && p@.well_formed() && p@.width
                    == width && p@.height == height && forall|k: int|
                    0 <= k < p@.pixels.len() ==> #[trigger] p@.pixels[k] == 0,
                None => width * height * 4 > usize::MAX,
            },
    {
        assert(width * height <= 0xffff_ffff * 0xffff_ffff) by (nonlinear_arith)
            requires
                0 <= width <= 0xffff_ffff,
                0 <= height <= 0xffff_ffff,
        ;
        let size: u64 = width as u64 * height as u64;
        if size > (usize::MAX / 4) as u64 {
            return None;
        }
        let pixels: Vec<u32> = vec![0u32; size as usize];
        Some(Picture { width, height, pixels })
    }

    /// A picture of the given size and pixels. `None` where the pixels are not as many
    /// as the size says.
    pub fn from_pixels(width: u32, height: u32, pixels: Vec<u32>) -> (r: Option<Picture>)
        ensures
            match r {
                Some(p) => p@.well_formed() && p@ == (PictureView {
                    width: width as nat,
                    height: height as nat,
                    pixels: pixels@,
                }),
                None => pixels@.len() != width * height,
            },
    {
        assert(width * height <= 0xffff_ffff * 0xffff_ffff) by (nonlinear_arith)
            requires
                0 <= width <= 0xffff_ffff,
                0 <= height <= 0xffff_ffff,
        ;
        let size: u64 = width as u64 * height as u64;
        if pixels.len() as u64 != size {
            return None;
        }
        Some(Picture { width, height, pixels })
    }

    pub fn width(&self) -> (w: u32)
        ensures
            w == self@.width,
    {
        self.width
    }

    pub fn height(&self) -> (h: u32)
        ensures
            h == self@.height,
    {
        self.height
    }

    /// The pixels, row by row.
    pub fn pixels(&self) -> (p: &Vec<u32>)
        ensures
            p@ == self@.pixels,
    {
        &self.pixels
    }

    /// The `count` rows from the row `top` on, as a picture of their own. `None` where
    /// the picture has not so many rows.
    pub fn rows(&self, top: u32, count: u32) -> (r: Option<Picture>)
        requires
            self.well_formed(),
        ensures
            match r {
                Some(p) => top + count <= self@.height && p@ == self@.rows(top as int, count as int)
                    && p@.well_formed(),
                None => top + count > self@.height,
            },
    {
        if top as u64 + count as u64 > self.height as u64 {
            return None;
        }
        let width = self.width as usize;
        let total = self.pixels.len();
        proof {
            let w = self.width as int;
            let h = self.height as int;
            assert(top * w <= (top + count) * w <= h * w) by (nonlinear_arith)
                requires
                    0 <= top,
                    0 <= count,
                    top + count <= h,
                    0 <= w,
            ;
            assert((top + count) * w - top * w == count * w) by (nonlinear_arith);
            assert(h * w == w * h) by (nonlinear_arith);
            assert((top + count) * w <= self.pixels@.len());
        }
        let from = top as usize * width;
        let to = (top as usize + count as usize) * width;
        let mut pixels: Vec<u32> = Vec::new();
        pixels.extend_from_slice(&self.pixels.as_slice()[from..to]);
        assert(pixels@ =~= self.pixels@.subrange(from as int, to as int));
        assert(self.width * count == count * self.width) by (nonlinear_arith);
        Some(Picture { width: self.width, height: count, pixels })
    }

    /// Pastes `other` over this picture, the top left corner of `other` at `(x, y)`.
    /// Where `other` does not lie inside this picture, nothing is pasted and `false` is
    /// returned.
    pub fn copy_from(&mut self, other: &Picture, x: u32, y: u32) -> (done: bool)
        requires
            old(self).well_formed(),
            other.well_formed(),
        ensures
            final(self).well_formed(),
            done == old(self)@.holds(other@, x as int, y as int),
            done ==> final(self)@ == old(self)@.pasted(other@, x as int, y as int),
            !done ==> final(self)@ == old(self)@,
    {
        if x as u64 + other.width as u64 > self.width as u64 || y as u64 + other.height as u64
            > self.height as u64 {
            return false;
        }
        let ghost before = self@;
        let ghost pasted = before.pasted(other@, x as int, y as int);
        let width = self.width as usize;
        let other_width = other.width as usize;
        let total = self.pixels.len();
        let other_total = other.pixels.len();
        let mut row: u32 = 0;
        while row < other.height
            invariant
                row <= other.height,
                self.width == before.width,
                self.height == before.height,
                width == self.width,
                other_width == other.width,
                before == old(self)@,
                before.well_formed(),
                other.pixels@.len() == other.width * other.height,
                before.holds(other@, x as int, y as int),
                pasted == before.pasted(other@, x as int, y as int),
                self.pixels@.len() == before.pixels.len(),
                total == self.pixels@.len(),
                other_total == other.pixels@.len(),
                forall|k: int|
                    0 <= k < self.pixels@.len() ==> #[trigger] self.pixels@[k] == (if k / (
                    width as int) < y + row {
                        pasted.pixels[k]
                    } else {
                        before.pixels[k]
                    }),
            decreases other.height - row,
        {
            let mut column: u32 = 0;
            while column < other.width
                invariant
                    row < other.height,
                    column <= other.width,
                    self.width == before.width,
                    self.height == before.height,
                    width == self.width,
                    other_width == other.width,
                    before.well_formed(),
                    other.pixels@.len() == other.width * other.height,
                    before.holds(other@, x as int, y as int),
                    pasted == before.pasted(other@, x as int, y as int),
                    self.pixels@.len() == before.pixels.len(),
                    total == self.pixels@.len(),
                    other_total == other.pixels@.len(),
                    forall|k: int|
                        0 <= k < self.pixels@.len() ==> #[trigger] self.pixels@[k] == (if k / (
                        width as int) < y + row || (k / (width as int) == y + row && k % (
                        width as int) < x + column) {
                            pasted.pixels[k]
                        } else {
                            before.pixels[k]
                        }),
                decreases other.width - column,
            {
                proof {
                    lemma_area(
                        self.width as int,
                        self.height as int,
                        x + column,
                        y + row,
                    );
                    lemma_area(
                        other.width as int,
                        other.height as int,
                        column as int,
                        row as int,
                    );
                    lemma_fundamental_div_mod_converse(
                        (y + row) * width + (x + column),
                        width as int,
                        y + row,
                        x + column,
                    );
                    assert((y + row) * width + (x + column) < self.pixels@.len());
                    assert(0 <= (y + row) * width) by (nonlinear_arith)
                        requires
                            0 <= y + row,
                            0 <= width,
                    ;
                    assert(row * other_width + column < other.pixels@.len());
                    assert(0 <= row * other_width) by (nonlinear_arith)
                        requires
                            0 <= row,
                            0 <= other_width,
                    ;
                }
                let to = (y as usize + row as usize) * width + (x as usize + column as usize);
                let from = row as usize * other_width + column as usize;
                let pixel = other.pixels[from];
                let ghost earlier = self.pixels@;
                self.pixels.set(to, pixel);
                proof {
                    assert(pasted.pixels[to as int] == pixel);
                    assert forall|k: int| 0 <= k < self.pixels@.len() implies (
                    #[trigger] self.pixels@[k]) == (if k / (width as int) < y + row || (k / (
                    width as int) == y + row && k % (width as int) < x + column + 1) {
                        pasted.pixels[k]
                    } else {
                        before.pixels[k]
                    }) by {
                        lemma_fundamental_div_mod(k, width as int);
                        assert(width * (y + row) == (y + row) * width) by (nonlinear_arith);
                        if k != to {
                            assert(self.pixels@[k] == earlier[k]);
                        }
                    }
                }
                column = column + 1;
            }
            proof {
                assert forall|k: int| 0 <= k < self.pixels@.len() implies #[trigger] self.pixels@[k]
                    == (if k / (width as int) < y + row + 1 {
                    pasted.pixels[k]
                } else {
                    before.pixels[k]
                }) by {
                    lemma_fundamental_div_mod(k, width as int);
                    let c = k % (width as int);
                    let r = k / (width as int);
                    if r == y + row && !(c < x + other.width) {
                        assert(pasted.pixels[k] == before.pixels[k]);
                    }
                    if r == y + row && c < x {
                        assert(pasted.pixels[k] == before.pixels[k]);
                    }
                }
            }
            row = row + 1;
        }
        proof {
            assert forall|k: int| 0 <= k < self.pixels@.len() implies self.pixels@[k]
                == pasted.pixels[k] by {
                if !(k / (width as int) < y + other.height) {
                    assert(pasted.pixels[k] == before.pixels[k]);
                }
            }
            assert(self.pixels@ =~= pasted.pixels);
        }
        true
    }

    /// Paints over this picture through a mask: pixel by pixel in the order of the rows,
    /// where the pixel of `mask` has the colour `color`, the pixel of `source` takes the
    /// place of the pixel of this picture.
    pub fn paint_masked(&mut self, source: &Picture, mask: &Picture, color: u32)
        requires
            old(self).well_formed(),
        ensures
            final(self)@ == old(self)@.painted(source@.pixels, mask@.pixels, color),
            final(self).well_formed(),
    {
        let ghost before = self@;
        let mut k: usize = 0;
        while k < self.pixels.len() && k < source.pixels.len() && k < mask.pixels.len()
            invariant
                self.width == before.width,
                self.height == before.height,
                before.well_formed(),
                before == old(self)@,
                self.pixels@.len() == before.pixels.len(),
                forall|j: int|
                    0 <= j < self.pixels@.len() ==> #[trigger] self.pixels@[j] == (if j < k {
                        before.painted(source@.pixels, mask@.pixels, color).pixels[j]
                    } else {
                        before.pixels[j]
                    }),
            decreases self.pixels@.len() - k,
        {
            if mask.pixels[k] == color {
                let pixel = source.pixels[k];
                self.pixels.set(k, pixel);
            }
            k = k + 1;
        }
        assert(self.pixels@ =~= before.painted(source@.pixels, mask@.pixels, color).pixels);
    }
}

} // verus!
