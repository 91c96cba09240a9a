//! Gaussian image pyramid: each level is the previous one low-passed with the
//! binomial kernel `[1, 4, 6, 4, 1] / 16` on both axes and decimated by two.
use vstd::prelude::*;
use crate::gray::{Gray, clamp_spec, get_safe_from_image, get_safe_from_vec, lemma_index_in_bounds};

verus! {

/// The binomial tap weights applied to five consecutive samples, divided by 16.
pub open spec fn binomial(a: int, b: int, c: int, d: int, e: int) -> int {
    (a + 4 * b + 6 * c + 4 * d + e) / 16
}

/// Entry `sx` of the transient row for output row `y`: the source column `sx`
/// filtered vertically around source row `2y`.
pub open spec fn row_value(src: Gray, y: int, sx: int) -> int {
    binomial(
        src.clamped(sx, 2 * y - 2) as int,
        src.clamped(sx, 2 * y - 1) as int,
        src.clamped(sx, 2 * y) as int,
        src.clamped(sx, 2 * y + 1) as int,
        src.clamped(sx, 2 * y + 2) as int,
    )
}

/// Entry `i` of the transient row, with `i` clamped to the row.
pub open spec fn row_clamped(src: Gray, y: int, i: int) -> int {
    row_value(src, y, clamp_spec(i, 0, src.width - 1))
}

/// Sample `(x, y)` of the level made from `src`.
pub open spec fn down_value(src: Gray, x: int, y: int) -> int {
    binomial(
        row_clamped(src, y, 2 * x - 2),
        row_clamped(src, y, 2 * x - 1),
        row_clamped(src, y, 2 * x),
        row_clamped(src, y, 2 * x + 1),
        row_clamped(src, y, 2 * x + 2),
    )
}

/// `dst` is the non-empty half-size level made from `src`.
pub open spec fn downsampled(src: Gray, dst: Gray) -> bool {
    &&& dst.wf()
    &&& dst.width == src.width / 2
    &&& dst.height == src.height / 2
    &&& dst.width > 0
    &&& dst.height > 0
    &&& forall|i: int|
        0 <= i < dst.pixels@.len() ==> #[trigger] dst.pixels@[i] == down_value(
            src,
            i % (dst.width as int),
            i / (dst.width as int),
        )
}

/// `images` is the pyramid of `src` with at most `levels` levels beyond it:
/// level 0 is `src`, each further level is made from the one before, and it
/// stops short of `levels` only where the next level would be empty.
pub open spec fn pyramid_of(src: Gray, levels: nat, images: Seq<Gray>) -> bool {
    &&& 1 <= images.len() <= levels + 1
    &&& images[0].same(src)
    &&& forall|k: int| 0 < k < images.len() ==> downsampled(#[trigger] images[k - 1], images[k])
    &&& images.len() < levels + 1 ==> images.last().width / 2 == 0 || images.last().height / 2
        == 0
}

/// The five binomial taps over `a..e`, divided by 16.
fn binomial5(a: u8, b: u8, c: u8, d: u8, e: u8) -> (r: u8)
    ensures
        r == binomial(a as int, b as int, c as int, d as int, e as int),
{
    let sum: u32 = a as u32 + 4 * b as u32 + 6 * c as u32 + 4 * d as u32 + e as u32;
    (sum / 16) as u8
}

/// The level made from `src`: half its width and height, truncated.
pub fn downsample(src: &Gray) -> (dst: Gray)
    requires
        src.wf(),
        src.width / 2 > 0,
        src.height / 2 > 0,
        src.width <= i32::MAX,
        src.height <= i32::MAX,
    ensures
        downsampled(*src, dst),
{
    let w = src.width / 2;
    let h = src.height / 2;
    let sw = src.width;
    let mut pixels: Vec<u8> = Vec::new();
    let mut y: u32 = 0;
    while y < h
        invariant
            src.wf(),
            w == src.width / 2,
            h == src.height / 2,
            sw == src.width,
            0 < sw <= i32::MAX,
            0 < src.height <= i32::MAX,
            y <= h,
            pixels@.len() == y * w,
            forall|i: int|
                0 <= i < pixels@.len() ==> #[trigger] pixels@[i] == down_value(
                    *src,
                    i % (w as int),
                    i / (w as int),
                ),
        decreases h - y,
    {
        let yi = y as i32 * 2;
        let mut row: Vec<u8> = Vec::new();
        let mut sx: u32 = 0;
        while sx < sw
            invariant
                src.wf(),
                sw == src.width,
                0 < sw <= i32::MAX,
                0 < src.height <= i32::MAX,
                y < h,
                h == src.height / 2,
                yi == 2 * y,
                sx <= sw,
                row@.len() == sx,
                forall|k: int| 0 <= k < sx ==> #[trigger] row@[k] == row_value(*src, y as int, k),
            decreases sw - sx,
        {
            let s = sx as i32;
            let v = binomial5(
                get_safe_from_image(src, s, yi - 2),
                get_safe_from_image(src, s, yi - 1),
                get_safe_from_image(src, s, yi),
                get_safe_from_image(src, s, yi + 1),
                get_safe_from_image(src, s, yi + 2),
            );
            row.push(v);
            sx = sx + 1;
        }
        let mut x: u32 = 0;
        while x < w
            invariant
                src.wf(),
                w == src.width / 2,
                sw == src.width,
                0 < sw <= i32::MAX,
                y < h,
                x <= w,
                row@.len() == sw,
                forall|k: int| 0 <= k < sw ==> #[trigger] row@[k] == row_value(*src, y as int, k),
                pixels@.len() == y * w + x,
                forall|i: int|
                    0 <= i < pixels@.len() ==> #[trigger] pixels@[i] == down_value(
                        *src,
                        i % (w as int),
                        i / (w as int),
                    ),
            decreases w - x,
        {
            let xi = x as i32 * 2;
            let v = binomial5(
                get_safe_from_vec(&row, xi - 2),
                get_safe_from_vec(&row, xi - 1),
                get_safe_from_vec(&row, xi),
                get_safe_from_vec(&row, xi + 1),
                get_safe_from_vec(&row, xi + 2),
            );
            proof {
                vstd::arithmetic::div_mod::lemma_fundamental_div_mod_converse(
                    y * w + x,
                    w as int,
                    y as int,
                    x as int,
                );
                lemma_index_in_bounds(w as int, h as int, x as int, y as int);
            }
            pixels.push(v);
            x = x + 1;
        }
        proof {
            assert((y + 1) * w == y * w + w) by (nonlinear_arith);
        }
        y = y + 1;
    }
    proof {
        assert(y * w == w * h) by (nonlinear_arith)
            requires
                y == h,
        ;
    }
    Gray { width: w, height: h, pixels }
}

/// The images of a pyramid, level 0 first.
pub struct Pyramid {
    pub images: Vec<Gray>,
}

impl Pyramid {
    /// The pyramid of `src_image` with at most `levels` levels beyond it.
    pub fn new(src_image: &Gray, levels: u32) -> (p: Pyramid)
        requires
            src_image.wf(),
            src_image.width <= i32::MAX,
            src_image.height <= i32::MAX,
        ensures
            pyramid_of(*src_image, levels as nat, p.images@),
            forall|k: int| 0 <= k < p.images@.len() ==> (#[trigger] p.images@[k]).wf(),
    {
        let mut images: Vec<Gray> = Vec::new();
        images.push(src_image.duplicate());
        let mut i: u32 = 0;
        while i < levels
            invariant_except_break
                images@.len() == i + 1,
            invariant
                i <= levels,
                1 <= images@.len() <= i + 1,
                images@[0].same(*src_image),
                src_image.wf(),
                src_image.width <= i32::MAX,
                src_image.height <= i32::MAX,
                forall|k: int|
                    0 < k < images@.len() ==> downsampled(#[trigger] images@[k - 1], images@[k]),
                forall|k: int|
                    0 <= k < images@.len() ==> (#[trigger] images@[k]).wf() && images@[k].width
                        <= i32::MAX && images@[k].height <= i32::MAX,
            ensures
                pyramid_of(*src_image, levels as nat, images@),
            decreases levels - i,
        {
            let n = images.len();
            let last = &images[n - 1];
            if last.width / 2 == 0 || last.height / 2 == 0 {
                break;
            }
            let dst = downsample(last);
            images.push(dst);
            i = i + 1;
        }
        Pyramid { images }
    }
}

proof fn lemma_downsample_uniform(src: Gray, dst: Gray, v: u8)
    requires
        src.wf(),
        src.uniform(v),
        downsampled(src, dst),
    ensures
        dst.uniform(v),
{
    assert forall|x: int, y: int| #![auto] src.clamped(x, y) == v by {
        let cx = clamp_spec(x, 0, src.width - 1);
        let cy = clamp_spec(y, 0, src.height - 1);
        lemma_index_in_bounds(src.width as int, src.height as int, cx, cy);
    }
    assert forall|i: int| 0 <= i < dst.pixels@.len() implies #[trigger] dst.pixels@[i] == v by {
        let x = i % (dst.width as int);
        let y = i / (dst.width as int);
        assert forall|k: int| #![auto] row_clamped(src, y, k) == v as int by {
            assert(src.clamped(clamp_spec(k, 0, src.width - 1), 2 * y - 2) == v);
        }
        assert(row_clamped(src, y, 2 * x - 2) == v as int);
    }
}

proof fn lemma_downsample_same(a: Gray, b: Gray, da: Gray, db: Gray)
    requires
        a.same(b),
        downsampled(a, da),
        downsampled(b, db),
    ensures
        da.same(db),
{
    assert forall|x: int, y: int| #![auto] down_value(a, x, y) == down_value(b, x, y) by {}
    assert(da.pixels@ =~= db.pixels@);
}

impl Pyramid {
    /// This pyramid was built from `src` with at most `levels` levels beyond it.
    pub open spec fn built_from(&self, src: Gray, levels: nat) -> bool {
        pyramid_of(src, levels, self.images@)
    }
}

/// Every level of the pyramid of a uniform image of value `v` is uniform of
/// value `v`.
pub proof fn lemma_uniform_levels(src: Gray, levels: nat, p: Pyramid, v: u8)
    requires
        src.wf(),
        src.uniform(v),
        p.built_from(src, levels),
    ensures
        forall|k: int| 0 <= k < p.images@.len() ==> (#[trigger] p.images@[k]).uniform(v),
{
    let imgs = p.images@;
    assert forall|k: int| 0 <= k < imgs.len() implies (#[trigger] imgs[k]).uniform(v) && imgs[k].wf() by {
        lemma_uniform_prefix(src, levels, imgs, v, k);
    }
}

proof fn lemma_uniform_prefix(src: Gray, levels: nat, imgs: Seq<Gray>, v: u8, k: int)
    requires
        src.wf(),
        src.uniform(v),
        pyramid_of(src, levels, imgs),
        0 <= k < imgs.len(),
    ensures
        imgs[k].uniform(v),
        imgs[k].wf(),
    decreases k,
{
    if k > 0 {
        lemma_uniform_prefix(src, levels, imgs, v, k - 1);
        lemma_downsample_uniform(imgs[k - 1], imgs[k], v);
    }
}

/// Two pyramids built from the same image with the same level count have
/// the same levels, sample for sample.
pub proof fn lemma_pyramid_deterministic(src: Gray, levels: nat, a: Pyramid, b: Pyramid)
    requires
        a.built_from(src, levels),
        b.built_from(src, levels),
    ensures
        a.images@.len() == b.images@.len(),
        forall|k: int| 0 <= k < a.images@.len() ==> (#[trigger] a.images@[k]).same(b.images@[k]),
{
    let sa = a.images@;
    let sb = b.images@;
    let n = if sa.len() < sb.len() { sa.len() } else { sb.len() };
    assert forall|k: int| 0 <= k < n implies (#[trigger] sa[k]).same(sb[k]) by {
        lemma_same_prefix(src, levels, sa, sb, k);
    }
    if sa.len() < sb.len() {
        assert(downsampled(sb[n - 1], sb[n as int]));
        assert(sa[n - 1].same(sb[n - 1]));
    } else if sb.len() < sa.len() {
        assert(downsampled(sa[n - 1], sa[n as int]));
        assert(sa[n - 1].same(sb[n - 1]));
    }
}

proof fn lemma_same_prefix(src: Gray, levels: nat, sa: Seq<Gray>, sb: Seq<Gray>, k: int)
    requires
        pyramid_of(src, levels, sa),
        pyramid_of(src, levels, sb),
        0 <= k < sa.len(),
        k < sb.len(),
    ensures
        sa[k].same(sb[k]),
    decreases k,
{
    if k > 0 {
        lemma_same_prefix(src, levels, sa, sb, k - 1);
        lemma_downsample_same(sa[k - 1], sb[k - 1], sa[k], sb[k]);
    }
}

} // verus!
