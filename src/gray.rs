//! The 8-bit grayscale image that the library works on, stored row-major.
use vstd::prelude::*;

verus! {

/// An 8-bit grayscale image: `pixels[y * width + x]` is the sample at `(x, y)`.
#[derive(Debug)]
pub struct Gray {
    pub width: u32,
    pub height: u32,
    pub pixels: Vec<u8>,
}

/// `v` clamped to `[lo, hi]`.
pub open spec fn clamp_spec(v: int, lo: int, hi: int) -> int {
    if v < lo {
        lo
    } else if v > hi {
        hi
    } else {
        v
    }
}

/// Relies on num::clamp: for `min <= max` it returns `min` below the range,
/// `max` above it and the input otherwise.
#[verifier::external_body]
pub(crate) fn clamp_i32(input: i32, min: i32, max: i32) -> (r: i32)
    requires
        min <= max,
    ensures
        r == clamp_spec(input as int, min as int, max as int),
{
    num::clamp(input, min, max)
}

/// `y * w + x` lies below `w * h` when `x < w` and `y < h`.
pub proof fn lemma_index_in_bounds(w: int, h: int, x: int, y: int)
    requires
        0 <= x < w,
        0 <= y < h,
    ensures
        0 <= y * w + x < w * h,
        y * w + x < h * w,
        y * w + x >= y * w,
{
    assert(w * h == h * w) by (nonlinear_arith);
    assert(y * w + x < w * h) by (nonlinear_arith)
        requires
            0 <= x < w,
            0 <= y < h,
    ;
    assert(0 <= y * w) by (nonlinear_arith)
        requires
            0 <= x < w,
            0 <= y < h,
    ;
}

impl Gray {
    /// The pixel buffer holds exactly one sample per position.
    pub open spec fn wf(&self) -> bool {
        self.pixels@.len() == self.width * self.height
    }

    /// The sample at `(x, y)`.
    pub open spec fn pixel(&self, x: int, y: int) -> u8 {
        self.pixels@[y * self.width + x]
    }

    /// The sample nearest to `(x, y)` inside the image.
    pub open spec fn clamped(&self, x: int, y: int) -> u8 {
        self.pixel(
            clamp_spec(x, 0, self.width - 1),
            clamp_spec(y, 0, self.height - 1),
        )
    }

    /// Same dimensions and samples.
    pub open spec fn same(&self, o: Gray) -> bool {
        self.width == o.width && self.height == o.height && self.pixels@ == o.pixels@
    }

    /// Every sample equals `v`.
    pub open spec fn uniform(&self, v: u8) -> bool {
        forall|i: int| 0 <= i < self.pixels@.len() ==> #[trigger] self.pixels@[i] == v
    }

    /// A `width` by `height` image whose samples are all `value`.
    pub fn new(width: u32, height: u32, value: u8) -> (r: Gray)
        requires
            width * height <= usize::MAX,
        ensures
            r.wf(),
            r.width == width,
            r.height == height,
            r.uniform(value),
    {
        let n: usize = width as usize * height as usize;
        let mut pixels: Vec<u8> = Vec::new();
        let mut i: usize = 0;
        while i < n
            invariant
                i <= n,
                pixels@.len() == i,
                forall|j: int| 0 <= j < i ==> #[trigger] pixels@[j] == value,
            decreases n - i,
        {
            pixels.push(value);
            i = i + 1;
        }
        Gray { width, height, pixels }
    }

    /// The image with the given samples, or `None` when their number is not
    /// `width * height`.
    pub fn from_raw(width: u32, height: u32, pixels: Vec<u8>) -> (r: Option<Gray>)
        ensures
            r.is_some() <==> pixels@.len() == width * height,
            r.is_some() ==> r.unwrap().width == width && r.unwrap().height == height
                && r.unwrap().pixels@ == pixels@,
    {
        assert((width as u64) * (height as u64) <= 0xffff_ffff * 0xffff_ffffu64) by (nonlinear_arith)
            requires
                width <= 0xffff_ffff,
                height <= 0xffff_ffff,
        ;
        if (pixels.len() as u128) == (width as u64 * height as u64) as u128 {
            Some(Gray { width, height, pixels })
        } else {
            None
        }
    }

    /// The sample at `(x, y)`.
    pub fn get_pixel(&self, x: u32, y: u32) -> (r: u8)
        requires
            self.wf(),
            x < self.width,
            y < self.height,
        ensures
            r == self.pixel(x as int, y as int),
    {
        let n = self.pixels.len();
        proof {
            lemma_index_in_bounds(self.width as int, self.height as int, x as int, y as int);
        }
        self.pixels[y as usize * self.width as usize + x as usize]
    }

    /// A copy with the same dimensions and samples.
    pub fn duplicate(&self) -> (r: Gray)
        ensures
            r.same(*self),
    {
        Gray { width: self.width, height: self.height, pixels: self.pixels.clone() }
    }
}

/// The sample nearest to `(x, y)` inside a non-empty image.
pub fn get_safe_from_image(image: &Gray, x: i32, y: i32) -> (r: u8)
    requires
        image.wf(),
        0 < image.width <= i32::MAX,
        0 < image.height <= i32::MAX,
    ensures
        r == image.clamped(x as int, y as int),
{
    let sx = clamp_i32(x, 0, image.width as i32 - 1);
    let sy = clamp_i32(y, 0, image.height as i32 - 1);
    image.get_pixel(sx as u32, sy as u32)
}

/// The element nearest to index `i` of a non-empty vector.
pub fn get_safe_from_vec(v: &Vec<u8>, i: i32) -> (r: u8)
    requires
        0 < v@.len() <= i32::MAX,
    ensures
        r == v@[clamp_spec(i as int, 0, v@.len() - 1)],
{
    let si = clamp_i32(i, 0, v.len() as i32 - 1);
    v[si as usize]
}

} // verus!
