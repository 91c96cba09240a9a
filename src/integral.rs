//! Integral images: 2D prefix sums answering box sums in constant time.
use vstd::prelude::*;
use crate::gray::{Gray, lemma_index_in_bounds};

verus! {

/// Sum of row `j` of `src` over the columns `x0..x1`.
pub open spec fn row_sum(src: Gray, j: int, x0: int, x1: int) -> int
    decreases x1 - x0,
{
    if x1 <= x0 {
        0
    } else {
        row_sum(src, j, x0, x1 - 1) + src.pixel(x1 - 1, j)
    }
}

/// Sum of `src` over the columns `x0..x1` and the rows `y0..y1`.
pub open spec fn box_sum(src: Gray, x0: int, x1: int, y0: int, y1: int) -> int
    decreases y1 - y0,
{
    if y1 <= y0 {
        0
    } else {
        box_sum(src, x0, x1, y0, y1 - 1) + row_sum(src, y1 - 1, x0, x1)
    }
}

/// The integral image of a grayscale image: `sums[y * width + x]` is the sum
/// of the source samples above and to the left of `(x, y)`, exclusive. It is
/// one column wider and one row taller than its source.
pub struct Integral {
    pub width: u32,
    pub height: u32,
    pub sums: Vec<u32>,
    pub source: Ghost<Gray>,
}

impl Integral {
    /// `sums` holds the prefix sums of `source`.
    pub open spec fn wf(&self) -> bool {
        &&& self.source@.wf()
        &&& self.width == self.source@.width + 1
        &&& self.height == self.source@.height + 1
        &&& self.sums@.len() == self.width * self.height
        &&& forall|x: int, y: int|
            0 <= x < self.width && 0 <= y < self.height ==> #[trigger] self.sums@[y * self.width + x]
                == box_sum(self.source@, 0, x, 0, y)
    }
}

/// Relies on imageproc::integral_image::integral_image: the output is one
/// column wider and one row taller, and holds at `(x, y)` the sum of the input
/// over the columns below `x` and the rows below `y`. The caller keeps the
/// total within `u32`.
#[verifier::external_body]
fn integral_sums(src: &Gray) -> (r: Vec<u32>)
    requires
        src.wf(),
        src.width < u32::MAX,
        src.height < u32::MAX,
        src.width * src.height * 255 <= u32::MAX,
    ensures
        r@.len() == (src.width + 1) * (src.height + 1),
        forall|x: int, y: int|
            0 <= x <= src.width && 0 <= y <= src.height ==> #[trigger] r@[y * (src.width + 1) + x]
                == box_sum(*src, 0, x, 0, y),
{
    let img = image::GrayImage::from_raw(src.width, src.height, src.pixels.clone()).unwrap();
    let out: image::ImageBuffer<image::Luma<u32>, Vec<u32>> =
        imageproc::integral_image::integral_image(&img);
    out.into_raw()
}

/// The integral image of `src`.
pub fn integral_image(src: &Gray) -> (r: Integral)
    requires
        src.wf(),
        src.width < u32::MAX,
        src.height < u32::MAX,
        src.width * src.height * 255 <= u32::MAX,
    ensures
        r.wf(),
        r.source@ == *src,
{
    let sums = integral_sums(src);
    Integral { width: src.width + 1, height: src.height + 1, sums, source: Ghost(*src) }
}

proof fn lemma_row_split(src: Gray, j: int, a: int, b: int, c: int)
    requires
        a <= b <= c,
    ensures
        row_sum(src, j, a, c) == row_sum(src, j, a, b) + row_sum(src, j, b, c),
    decreases c - b,
{
    if c > b {
        lemma_row_split(src, j, a, b, c - 1);
    }
}

proof fn lemma_box_split_x(src: Gray, a: int, b: int, c: int, y0: int, y1: int)
    requires
        a <= b <= c,
    ensures
        box_sum(src, a, c, y0, y1) == box_sum(src, a, b, y0, y1) + box_sum(src, b, c, y0, y1),
    decreases y1 - y0,
{
    if y1 > y0 {
        lemma_box_split_x(src, a, b, c, y0, y1 - 1);
        lemma_row_split(src, y1 - 1, a, b, c);
    }
}

proof fn lemma_box_split_y(src: Gray, x0: int, x1: int, a: int, b: int, c: int)
    requires
        a <= b <= c,
    ensures
        box_sum(src, x0, x1, a, c) == box_sum(src, x0, x1, a, b) + box_sum(src, x0, x1, b, c),
    decreases c - b,
{
    if c > b {
        lemma_box_split_y(src, x0, x1, a, b, c - 1);
    }
}

proof fn lemma_row_bounds(src: Gray, j: int, x0: int, x1: int)
    requires
        x0 <= x1,
    ensures
        0 <= row_sum(src, j, x0, x1) <= 255 * (x1 - x0),
    decreases x1 - x0,
{
    if x1 > x0 {
        lemma_row_bounds(src, j, x0, x1 - 1);
    }
}

pub proof fn lemma_box_bounds(src: Gray, x0: int, x1: int, y0: int, y1: int)
    requires
        x1 == x0 + 5,
        y0 <= y1,
    ensures
        0 <= box_sum(src, x0, x1, y0, y1) <= 1275 * (y1 - y0),
    decreases y1 - y0,
{
    if y1 > y0 {
        lemma_box_bounds(src, x0, x1, y0, y1 - 1);
        lemma_row_bounds(src, y1 - 1, x0, x1);
    }
}

/// The sum of the 5x5 box of source samples centred at `(cx, cy)`.
pub open spec fn box5(src: Gray, cx: int, cy: int) -> int {
    box_sum(src, cx - 2, cx + 3, cy - 2, cy + 3)
}

/// The 5x5 box centred at `(cx, cy)` lies inside the source of `image`.
pub open spec fn box5_inside(image: Integral, cx: int, cy: int) -> bool {
    2 <= cx && cx + 3 <= image.source@.width && 2 <= cy && cy + 3 <= image.source@.height
}

/// Entry `(x, y)` of the integral image.
fn sum_at(image: &Integral, x: u32, y: u32) -> (r: u32)
    requires
        image.wf(),
        x < image.width,
        y < image.height,
    ensures
        r == box_sum(image.source@, 0, x as int, 0, y as int),
{
    let n = image.sums.len();
    proof {
        lemma_index_in_bounds(image.width as int, image.height as int, x as int, y as int);
    }
    image.sums[y as usize * image.width as usize + x as usize]
}

/// The sum of the source samples in the inclusive rectangle
/// `[left, right] x [top, bottom]`, from four entries of the integral image.
pub fn sum_image_pixels(image: &Integral, left: u32, top: u32, right: u32, bottom: u32) -> (r: i64)
    requires
        image.wf(),
        left <= right + 1,
        top <= bottom + 1,
        right + 1 < image.width,
        bottom + 1 < image.height,
    ensures
        r == box_sum(image.source@, left as int, right + 1, top as int, bottom + 1),
{
    let a = sum_at(image, right + 1, bottom + 1) as i64;
    let b = sum_at(image, left, top) as i64;
    let c = sum_at(image, right + 1, top) as i64;
    let d = sum_at(image, left, bottom + 1) as i64;
    proof {
        let g = image.source@;
        lemma_box_split_x(g, 0, left as int, right + 1, 0, bottom + 1);
        lemma_box_split_x(g, 0, left as int, right + 1, 0, top as int);
        lemma_box_split_y(g, left as int, right + 1, 0, top as int, bottom + 1);
    }
    a + b - c - d
}

/// Box sums over a cropped square equal box sums over its source, shifted by
/// the square's corner.
pub proof fn lemma_box_shift(src: Gray, patch: Gray, x0: int, y0: int, a0: int, a1: int, b0: int, b1: int)
    requires
        patch.wf(),
        patch.width > 0,
        0 <= a0 <= a1 <= patch.width,
        0 <= b0 <= b1 <= patch.height,
        forall|k: int|
            0 <= k < patch.pixels@.len() ==> #[trigger] patch.pixels@[k] == src.pixel(
                x0 + k % (patch.width as int),
                y0 + k / (patch.width as int),
            ),
    ensures
        box_sum(patch, a0, a1, b0, b1) == box_sum(src, x0 + a0, x0 + a1, y0 + b0, y0 + b1),
    decreases b1 - b0,
{
    if b1 > b0 {
        lemma_box_shift(src, patch, x0, y0, a0, a1, b0, b1 - 1);
        lemma_row_shift(src, patch, x0, y0, b1 - 1, a0, a1);
    }
}

proof fn lemma_row_shift(src: Gray, patch: Gray, x0: int, y0: int, j: int, a0: int, a1: int)
    requires
        patch.wf(),
        patch.width > 0,
        0 <= a0 <= a1 <= patch.width,
        0 <= j < patch.height,
        forall|k: int|
            0 <= k < patch.pixels@.len() ==> #[trigger] patch.pixels@[k] == src.pixel(
                x0 + k % (patch.width as int),
                y0 + k / (patch.width as int),
            ),
    ensures
        row_sum(patch, j, a0, a1) == row_sum(src, y0 + j, x0 + a0, x0 + a1),
    decreases a1 - a0,
{
    if a1 > a0 {
        lemma_row_shift(src, patch, x0, y0, j, a0, a1 - 1);
        let w = patch.width as int;
        lemma_index_in_bounds(w, patch.height as int, a1 - 1, j);
        vstd::arithmetic::div_mod::lemma_fundamental_div_mod_converse(j * w + a1 - 1, w, j, a1 - 1);
        assert(patch.pixels@[j * w + a1 - 1] == src.pixel(x0 + a1 - 1, y0 + j));
    }
}

} // verus!
