use vstd::prelude::*;

verus! {

/// An 8-bit RGBA colour.
#[derive(Clone, Copy, Debug, PartialEq, Eq, Structural)]
pub struct Rgba {
    pub r: u8,
    pub g: u8,
    pub b: u8,
    pub a: u8,
}

/// Why an effect could not be applied to a raster.
#[derive(Clone, Copy, Debug, PartialEq, Eq, Structural)]
pub enum EffectError {
    /// A coordinate outside the raster was used.
    OutOfBounds,
    /// The requested effect name is not one of the known effects.
    UnsupportedEffect,
}

/// A `width` x `height` grid of pixels. The pixel at `(row, col)`, with
/// `row < width` and `col < height`, is stored at `row * height + col`.
pub struct Raster {
    pub width: u32,
    pub height: u32,
    pub pixels: Vec<Rgba>,
}

/// Position of `(row, col)` in the row-major pixel sequence of a raster of the given height.
pub open spec fn flat(height: int, row: int, col: int) -> int {
    row * height + col
}

/// The pixel at `(row, col)` of a pixel sequence of the given height.
pub open spec fn pix(s: Seq<Rgba>, height: int, row: int, col: int) -> Rgba {
    s[flat(height, row, col)]
}

pub open spec fn in_grid(width: int, height: int, row: int, col: int) -> bool {
    0 <= row < width && 0 <= col < height
}

impl Raster {
    pub open spec fn wf(&self) -> bool {
        self.pixels@.len() == self.width as int * self.height as int
    }

    pub open spec fn in_bounds(&self, row: int, col: int) -> bool {
        in_grid(self.width as int, self.height as int, row, col)
    }

    pub open spec fn at(&self, row: int, col: int) -> Rgba {
        pix(self.pixels@, self.height as int, row, col)
    }

    /// A raster of the given size with every pixel set to `fill`.
    pub fn new(width: u32, height: u32, fill: Rgba) -> (r: Option<Raster>)
        ensures
            match r {
                Some(img) => img.wf() && img.width == width && img.height == height
                    && forall|k: int| 0 <= k < img.pixels@.len() ==> img.pixels@[k] == fill,
                None => width as int * height as int > usize::MAX,
            },
    {
        let n = (width as usize).checked_mul(height as usize);
        match n {
            None => None,
            Some(n) => {
                let mut pixels: Vec<Rgba> = Vec::new();
                let mut i: usize = 0;
                while i < n
                    invariant
                        i <= n,
                        pixels@.len() == i,
                        forall|k: int| 0 <= k < i ==> pixels@[k] == fill,
                    decreases n - i,
                {
                    pixels.push(fill);
                    i = i + 1;
                }
                Some(Raster { width, height, pixels })
            },
        }
    }

    /// A raster made of the given row-major pixels, if their number is `width * height`.
    pub fn from_pixels(width: u32, height: u32, pixels: Vec<Rgba>) -> (r: Option<Raster>)
        ensures
            match r {
                Some(img) => img.wf() && img.width == width && img.height == height
                    && img.pixels@ == pixels@,
                None => pixels@.len() != width as int * height as int,
            },
    {
        let len = pixels.len();
        let n = (width as usize).checked_mul(height as usize);
        match n {
            Some(n) => {
                if n == len {
                    Some(Raster { width, height, pixels })
                } else {
                    None
                }
            },
            None => None,
        }
    }

    /// The pixel at `(row, col)`.
    pub fn get_pixel(&self, row: u32, col: u32) -> (r: Result<Rgba, EffectError>)
        requires
            self.wf(),
        ensures
            self.in_bounds(row as int, col as int) ==> r == Ok::<Rgba, EffectError>(
                self.at(row as int, col as int),
            ),
            !self.in_bounds(row as int, col as int) ==> r == Err::<Rgba, EffectError>(
                EffectError::OutOfBounds,
            ),
    {
        if row >= self.width || col >= self.height {
            return Err(EffectError::OutOfBounds);
        }
        let n = self.pixels.len();
        proof {
            lemma_flat_in_range(self.width as int, self.height as int, row as int, col as int);
        }
        Ok(self.pixels[row as usize * self.height as usize + col as usize])
    }

    /// Overwrites the pixel at `(row, col)` and nothing else.
    pub fn put_pixel(&mut self, row: u32, col: u32, color: Rgba) -> (r: Result<(), EffectError>)
        requires
            old(self).wf(),
        ensures
            final(self).wf(),
            final(self).width == old(self).width,
            final(self).height == old(self).height,
            old(self).in_bounds(row as int, col as int) ==> r is Ok && final(self).pixels@
                == old(self).pixels@.update(
                flat(old(self).height as int, row as int, col as int),
                color,
            ),
            !old(self).in_bounds(row as int, col as int) ==> r == Err::<(), EffectError>(
                EffectError::OutOfBounds,
            ) && final(self).pixels@ == old(self).pixels@,
    {
        if row >= self.width || col >= self.height {
            return Err(EffectError::OutOfBounds);
        }
        let n = self.pixels.len();
        proof {
            lemma_flat_in_range(self.width as int, self.height as int, row as int, col as int);
        }
        let i = row as usize * self.height as usize + col as usize;
        self.pixels.set(i, color);
        Ok(())
    }
}

/// A pixel together with its coordinate.
#[derive(Clone, Copy, Debug, PartialEq, Eq, Structural)]
pub struct RgbaPixel {
    pub row_index: u32,
    pub col_index: u32,
    pub data: Rgba,
}

impl RgbaPixel {
    pub fn new(row_index: u32, col_index: u32, data: Rgba) -> (r: RgbaPixel)
        ensures
            r == (RgbaPixel { row_index, col_index, data }),
    {
        RgbaPixel { row_index, col_index, data }
    }
}

pub proof fn lemma_flat_in_range(width: int, height: int, row: int, col: int)
    requires
        in_grid(width, height, row, col),
    ensures
        0 <= flat(height, row, col) < width * height,
        row * height + height <= width * height,
{
    assert(row * height + height <= width * height) by (nonlinear_arith)
        requires
            0 <= row < width,
            0 <= height,
    ;
    assert(0 <= row * height) by (nonlinear_arith)
        requires
            0 <= row,
            0 <= height,
    ;
}

pub proof fn lemma_flat_injective(height: int, r1: int, c1: int, r2: int, c2: int)
    requires
        0 <= r1,
        0 <= r2,
        0 <= c1 < height,
        0 <= c2 < height,
        flat(height, r1, c1) == flat(height, r2, c2),
    ensures
        r1 == r2 && c1 == c2,
{
    if r1 < r2 {
        assert(r1 * height + height <= r2 * height) by (nonlinear_arith)
            requires
                r1 < r2,
                0 <= height,
        ;
    } else if r2 < r1 {
        assert(r2 * height + height <= r1 * height) by (nonlinear_arith)
            requires
                r2 < r1,
                0 <= height,
        ;
    }
}

/// The first `s.len()` entries of `s` are the samples of `image` at those positions.
pub open spec fn samples_of(image: &Raster, s: Seq<RgbaPixel>) -> bool {
    forall|k: int|
        0 <= k < s.len() ==> {
            &&& image.in_bounds((#[trigger] s[k]).row_index as int, s[k].col_index as int)
            &&& flat(image.height as int, s[k].row_index as int, s[k].col_index as int) == k
            &&& s[k].data == image.pixels@[k]
        }
}

/// Every pixel of the raster, each once, in row-major order (row outer, column inner).
pub fn get_pixel_vec(image: &Raster) -> (res: Vec<RgbaPixel>)
    requires
        image.wf(),
    ensures
        res@.len() == image.pixels@.len(),
        samples_of(image, res@),
{
    let mut res: Vec<RgbaPixel> = Vec::new();
    let mut row: u32 = 0;
    while row < image.width
        invariant
            image.wf(),
            row <= image.width,
            res@.len() == row as int * image.height as int,
            samples_of(image, res@),
        decreases image.width - row,
    {
        proof {
            assert(row as int * image.height as int + image.height as int <= image.width as int
                * image.height as int) by (nonlinear_arith)
                requires
                    row < image.width,
            ;
        }
        let mut col: u32 = 0;
        while col < image.height
            invariant
                image.wf(),
                row < image.width,
                col <= image.height,
                res@.len() == row as int * image.height as int + col,
                samples_of(image, res@),
                row as int * image.height as int + image.height as int <= image.pixels@.len(),
            decreases image.height - col,
        {
            let pixel = image.get_pixel(row, col);
            proof {
                lemma_flat_in_range(image.width as int, image.height as int, row as int, col as int);
            }
            match pixel {
                Ok(p) => {
                    let ghost before = res@;
                    res.push(RgbaPixel::new(row, col, p));
                    assert forall|k: int| 0 <= k < res@.len() implies {
                        &&& image.in_bounds(#[trigger] res@[k].row_index as int, res@[k].col_index as int)
                        &&& flat(image.height as int, res@[k].row_index as int, res@[k].col_index as int) == k
                        &&& res@[k].data == image.pixels@[k]
                    } by {
                        if k < before.len() {
                            assert(res@[k] == before[k]);
                        }
                    }
                },
                Err(_) => {},
            }
            col = col + 1;
        }
        proof {
            assert(row as int * image.height as int + image.height as int == (row as int + 1)
                * image.height as int) by (nonlinear_arith);
        }
        row = row + 1;
    }
    res
}

} // verus!
