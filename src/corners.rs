//! Corner detection and scoring: the discrete circular window, Harris
//! cornerness on that window, intensity-centroid moments and FAST-9
//! candidates re-scored by Harris.
use vstd::prelude::*;
use crate::gray::{Gray, clamp_spec, lemma_index_in_bounds};

verus! {

/// The offset `p` lies in the disc whose diameter is `t`: `|p|^2 <= (t/2)^2`.
pub open spec fn in_disc(t: int, p: (i32, i32)) -> bool {
    4 * (p.0 * p.0 + p.1 * p.1) <= t * t
}

/// Side of the square scanned for a disc of diameter `t`.
pub open spec fn grid_side(t: int) -> int {
    2 * (t / 2) + 1
}

/// Every offset of the square `[-t/2, t/2]^2`, row by row (`y` outer, `x`
/// inner), each ascending.
pub open spec fn grid(t: int) -> Seq<(i32, i32)> {
    Seq::new(
        (grid_side(t) * grid_side(t)) as nat,
        |k: int| ((k % grid_side(t) - t / 2) as i32, (k / grid_side(t) - t / 2) as i32),
    )
}

/// Membership in the disc of diameter `t`, as a predicate.
pub open spec fn disc(t: int) -> spec_fn((i32, i32)) -> bool {
    |p: (i32, i32)| in_disc(t, p)
}

/// The offsets of the disc of diameter `t`, in row-major order.
pub open spec fn window_spec(t: int) -> Seq<(i32, i32)> {
    grid(t).filter(disc(t))
}

proof fn lemma_disc_bounds(t: int, p: (i32, i32))
    requires
        t >= 0,
        in_disc(t, p),
    ensures
        -(t / 2) <= p.0 <= t / 2,
        -(t / 2) <= p.1 <= t / 2,
{
    let r = t / 2;
    let a = p.0 as int;
    let b = p.1 as int;
    assert(a * a >= 0 && b * b >= 0) by (nonlinear_arith);
    if a > r || -a > r {
        assert(2 * a > t || -2 * a > t);
        assert(4 * (a * a) > t * t) by (nonlinear_arith)
            requires
                2 * a > t || -2 * a > t,
                t >= 0,
        ;
    }
    if b > r || -b > r {
        assert(4 * (b * b) > t * t) by (nonlinear_arith)
            requires
                2 * b > t || -2 * b > t,
                t >= 0,
        ;
    }
}

/// The integer offsets of the disc of diameter `t` (radius `t / 2`), row by
/// row from the top, each row from the left.
pub fn circular_window(t: u32) -> (r: Vec<(i32, i32)>)
    requires
        t <= 4096,
    ensures
        r@ == window_spec(t as int),
{
    let mut offsets: Vec<(i32, i32)> = Vec::new();
    let rr: i32 = (t / 2) as i32;
    let side: i32 = 2 * rr + 1;
    proof {
        assert(0 <= (t as int) * (t as int) <= 4096 * 4096) by (nonlinear_arith)
            requires
                t <= 4096,
        ;
    }
    let tt: i64 = t as i64 * t as i64;
    let ghost g = grid(t as int);
    let mut j: i32 = -rr;
    proof {
        reveal(Seq::filter);
        assert(g.take(0) =~= Seq::<(i32, i32)>::empty());
        assert(g.take(0).filter(disc(t as int)) =~= Seq::<(i32, i32)>::empty());
        assert((j + rr) * side == 0) by (nonlinear_arith)
            requires
                j == -rr,
        ;
    }
    while j <= rr
        invariant
            rr == t / 2,
            side == grid_side(t as int),
            tt == t * t,
            t <= 4096,
            g == grid(t as int),
            -rr <= j <= rr + 1,
            offsets@ == g.take((j + rr) * side).filter(disc(t as int)),
        decreases rr + 1 - j,
    {
        let mut i: i32 = -rr;
        while i <= rr
            invariant
                rr == t / 2,
                side == grid_side(t as int),
                tt == t * t,
                t <= 4096,
                g == grid(t as int),
                -rr <= j <= rr,
                -rr <= i <= rr + 1,
                offsets@ == g.take((j + rr) * side + (i + rr)).filter(disc(t as int)),
            decreases rr + 1 - i,
        {
            let ghost pos = (j + rr) * side + (i + rr);
            proof {
                lemma_index_in_bounds(side as int, side as int, (i + rr) as int, (j + rr) as int);
                vstd::arithmetic::div_mod::lemma_fundamental_div_mod_converse(
                    pos,
                    side as int,
                    (j + rr) as int,
                    (i + rr) as int,
                );
                assert(g.take(pos + 1).drop_last() =~= g.take(pos));
                assert(g[pos] == (i, j));
                assert(0 <= (i as int) * (i as int) <= 4096 * 4096) by (nonlinear_arith)
                    requires
                        -4096 <= i <= 4096,
                ;
                assert(0 <= (j as int) * (j as int) <= 4096 * 4096) by (nonlinear_arith)
                    requires
                        -4096 <= j <= 4096,
                ;
            }
            let d: i64 = 4 * ((i as i64) * (i as i64) + (j as i64) * (j as i64));
            proof {
                assert(g.take(pos + 1).last() == (i, j));
                assert(disc(t as int)((i, j)) == (d <= tt));
            }
            if d <= tt {
                offsets.push((i, j));
            }
            proof {
                reveal(Seq::filter);
                let q = g.take(pos + 1);
                assert(q.drop_last() =~= g.take(pos));
                assert(q.filter(disc(t as int)) == if disc(t as int)(q.last()) {
                    q.drop_last().filter(disc(t as int)).push(q.last())
                } else {
                    q.drop_last().filter(disc(t as int))
                });
                assert(offsets@ == q.filter(disc(t as int)));
            }
            i = i + 1;
        }
        proof {
            assert((j + rr) * side + side == (j + 1 + rr) * side) by (nonlinear_arith);
        }
        j = j + 1;
    }
    proof {
        assert(side * side == (j + rr) * side);
        assert(g.take((j + rr) * side) =~= g);
    }
    offsets
}

/// `(x, y)` is within `r` pixels of an edge of a `w` by `h` image: no
/// `(2r + 1)`-square centred there fits strictly inside it.
pub open spec fn near_edge(w: int, h: int, x: int, y: int, r: int) -> bool {
    x < r || y < r || x + r >= w || y + r >= h
}

/// Horizontal Sobel response of `g` at `(x, y)`, reading past the edges the
/// nearest sample.
pub open spec fn sobel_h_at(g: Gray, x: int, y: int) -> int {
    (g.clamped(x + 1, y - 1) - g.clamped(x - 1, y - 1)) + 2 * (g.clamped(x + 1, y) - g.clamped(
        x - 1,
        y,
    )) + (g.clamped(x + 1, y + 1) - g.clamped(x - 1, y + 1))
}

/// Vertical Sobel response of `g` at `(x, y)`, reading past the edges the
/// nearest sample.
pub open spec fn sobel_v_at(g: Gray, x: int, y: int) -> int {
    (g.clamped(x - 1, y + 1) - g.clamped(x - 1, y - 1)) + 2 * (g.clamped(x, y + 1) - g.clamped(
        x,
        y - 1,
    )) + (g.clamped(x + 1, y + 1) - g.clamped(x + 1, y - 1))
}

/// Sample `(u, v)` of the `n`-square of `src` at `(x0, y0)`, reading past the
/// square's edges the nearest sample inside it.
pub open spec fn patch_clamped(src: Gray, x0: int, y0: int, n: int, u: int, v: int) -> int {
    src.pixel(x0 + clamp_spec(u, 0, n - 1), y0 + clamp_spec(v, 0, n - 1)) as int
}

pub open spec fn patch_sobel_h(src: Gray, x0: int, y0: int, n: int, u: int, v: int) -> int {
    (patch_clamped(src, x0, y0, n, u + 1, v - 1) - patch_clamped(src, x0, y0, n, u - 1, v - 1))
        + 2 * (patch_clamped(src, x0, y0, n, u + 1, v) - patch_clamped(src, x0, y0, n, u - 1, v))
        + (patch_clamped(src, x0, y0, n, u + 1, v + 1) - patch_clamped(
        src,
        x0,
        y0,
        n,
        u - 1,
        v + 1,
    ))
}

pub open spec fn patch_sobel_v(src: Gray, x0: int, y0: int, n: int, u: int, v: int) -> int {
    (patch_clamped(src, x0, y0, n, u - 1, v + 1) - patch_clamped(src, x0, y0, n, u - 1, v - 1))
        + 2 * (patch_clamped(src, x0, y0, n, u, v + 1) - patch_clamped(src, x0, y0, n, u, v - 1))
        + (patch_clamped(src, x0, y0, n, u + 1, v + 1) - patch_clamped(
        src,
        x0,
        y0,
        n,
        u + 1,
        v - 1,
    ))
}

/// Sums of `Ix^2`, `Iy^2` and `Ix * Iy` over the offsets `win` around the
/// centre of the `(2r + 1)`-square of `src` at `(x0, y0)`, the gradients
/// taken within that square.
pub open spec fn tensor(src: Gray, x0: int, y0: int, r: int, win: Seq<(i32, i32)>) -> (int, int, int)
    decreases win.len(),
{
    if win.len() == 0 {
        (0, 0, 0)
    } else {
        let (a, b, c) = tensor(src, x0, y0, r, win.drop_last());
        let o = win.last();
        let gx = patch_sobel_h(src, x0, y0, 2 * r + 1, o.0 + r, o.1 + r);
        let gy = patch_sobel_v(src, x0, y0, 2 * r + 1, o.0 + r, o.1 + r);
        (a + gx * gx, b + gy * gy, c + gx * gy)
    }
}

/// Harris cornerness of the structure tensor `[[a, c], [c, b]]`, scaled by
/// 100: `100 * det - 6 * trace^2`.
pub open spec fn harris_value(t: (int, int, int)) -> int {
    100 * (t.0 * t.1 - t.2 * t.2) - 6 * ((t.0 + t.1) * (t.0 + t.1))
}

/// The scaled Harris score of `src` at `(x, y)` on the window of radius
/// `r + 1/2`; zero within `r` of an edge.
pub open spec fn harris_spec(src: Gray, x: int, y: int, r: int) -> int {
    if near_edge(src.width as int, src.height as int, x, y, r) {
        0
    } else {
        harris_value(tensor(src, x - r, y - r, r, window_spec(2 * r + 1)))
    }
}

/// Relies on imageproc::gradients::horizontal_sobel: a 3x3 correlation with
/// `[-1 0 1; -2 0 2; -1 0 1]`, reading past the edges the nearest sample,
/// one output per input sample in the same row-major order.
#[verifier::external_body]
fn horizontal_sobel(g: &Gray) -> (r: Vec<i16>)
    requires
        g.wf(),
        g.width > 0,
        g.height > 0,
    ensures
        r@.len() == g.pixels@.len(),
        forall|i: int|
            0 <= i < r@.len() ==> #[trigger] r@[i] == sobel_h_at(
                *g,
                i % (g.width as int),
                i / (g.width as int),
            ),
{
    let img = image::GrayImage::from_raw(g.width, g.height, g.pixels.clone()).unwrap();
    imageproc::gradients::horizontal_sobel(&img).into_raw()
}

/// Relies on imageproc::gradients::vertical_sobel: a 3x3 correlation with
/// `[-1 -2 -1; 0 0 0; 1 2 1]`, reading past the edges the nearest sample,
/// one output per input sample in the same row-major order.
#[verifier::external_body]
fn vertical_sobel(g: &Gray) -> (r: Vec<i16>)
    requires
        g.wf(),
        g.width > 0,
        g.height > 0,
    ensures
        r@.len() == g.pixels@.len(),
        forall|i: int|
            0 <= i < r@.len() ==> #[trigger] r@[i] == sobel_v_at(
                *g,
                i % (g.width as int),
                i / (g.width as int),
            ),
{
    let img = image::GrayImage::from_raw(g.width, g.height, g.pixels.clone()).unwrap();
    imageproc::gradients::vertical_sobel(&img).into_raw()
}

/// The `n`-square of `src` whose top-left sample is `(x0, y0)`.
pub fn crop(src: &Gray, x0: u32, y0: u32, n: u32) -> (r: Gray)
    requires
        src.wf(),
        x0 + n <= src.width,
        y0 + n <= src.height,
    ensures
        r.wf(),
        r.width == n,
        r.height == n,
        forall|k: int|
            0 <= k < r.pixels@.len() ==> #[trigger] r.pixels@[k] == src.pixel(
                x0 + k % (n as int),
                y0 + k / (n as int),
            ),
{
    let mut pixels: Vec<u8> = Vec::new();
    let mut v: u32 = 0;
    while v < n
        invariant
            src.wf(),
            x0 + n <= src.width,
            y0 + n <= src.height,
            v <= n,
            pixels@.len() == v * n,
            forall|k: int|
                0 <= k < pixels@.len() ==> #[trigger] pixels@[k] == src.pixel(
                    x0 + k % (n as int),
                    y0 + k / (n as int),
                ),
        decreases n - v,
    {
        let mut u: u32 = 0;
        while u < n
            invariant
                src.wf(),
                x0 + n <= src.width,
                y0 + n <= src.height,
                v < n,
                u <= n,
                pixels@.len() == v * n + u,
                forall|k: int|
                    0 <= k < pixels@.len() ==> #[trigger] pixels@[k] == src.pixel(
                        x0 + k % (n as int),
                        y0 + k / (n as int),
                    ),
            decreases n - u,
        {
            proof {
                vstd::arithmetic::div_mod::lemma_fundamental_div_mod_converse(
                    v * n + u,
                    n as int,
                    v as int,
                    u as int,
                );
            }
            let p = src.get_pixel(x0 + u, y0 + v);
            pixels.push(p);
            u = u + 1;
        }
        proof {
            assert((v + 1) * n == v * n + n) by (nonlinear_arith);
        }
        v = v + 1;
    }
    proof {
        assert(v * n == n * n) by (nonlinear_arith)
            requires
                v == n,
        ;
    }
    Gray { width: n, height: n, pixels }
}

proof fn lemma_patch_clamped(src: Gray, patch: Gray, x0: int, y0: int, n: int)
    requires
        patch.wf(),
        patch.width == n,
        patch.height == n,
        n > 0,
        forall|k: int|
            0 <= k < patch.pixels@.len() ==> #[trigger] patch.pixels@[k] == src.pixel(
                x0 + k % n,
                y0 + k / n,
            ),
    ensures
        forall|a: int, b: int| #[trigger] patch.clamped(a, b) == patch_clamped(src, x0, y0, n, a, b),
{
    assert forall|a: int, b: int| #[trigger] patch.clamped(a, b) == patch_clamped(src, x0, y0, n, a, b) by {
        let ca = clamp_spec(a, 0, n - 1);
        let cb = clamp_spec(b, 0, n - 1);
        lemma_index_in_bounds(n, n, ca, cb);
        vstd::arithmetic::div_mod::lemma_fundamental_div_mod_converse(cb * n + ca, n, cb, ca);
    }
}

/// The scaled Harris score of `src` at `(x, y)` over the discrete disc of
/// radius `r + 1/2`, gradients taken by Sobel within the `(2r + 1)`-square
/// centred there; zero within `r` pixels of an edge. With `n` the number of
/// offsets in the window, the real score `det(M) - 0.06 * trace(M)^2` of the
/// tensor normalised by `1 / n^4` is this value divided by `100 * n^8`.
///
/// The radius is at most 1000: the window then holds at most `2001^2`
/// offsets and each squared Sobel response is at most `1020^2`, so the tensor
/// sums stay below `5 * 10^12` in `i64` and the scaled score stays within
/// `i128`.
pub fn harris_score(src: &Gray, x: u32, y: u32, r: u32) -> (score: i128)
    requires
        src.wf(),
        r <= 1000,
    ensures
        score == harris_spec(*src, x as int, y as int, r as int),
        near_edge(src.width as int, src.height as int, x as int, y as int, r as int) ==> score == 0,
{
    if x < r || y < r || x as u64 + r as u64 >= src.width as u64 || y as u64 + r as u64
        >= src.height as u64 {
        return 0;
    }
    let n = 2 * r + 1;
    let x0 = x - r;
    let y0 = y - r;
    let patch = crop(src, x0, y0, n);
    let ix = horizontal_sobel(&patch);
    let iy = vertical_sobel(&patch);
    let window = circular_window(n);
    proof {
        lemma_patch_clamped(*src, patch, x0 as int, y0 as int, n as int);
        grid(n as int).lemma_filter_len(disc(n as int));
        lemma_index_in_bounds(n as int, n as int, 0, 0);
        assert(n * n <= 2001 * 2001) by (nonlinear_arith)
            requires
                n <= 2001,
        ;
    }
    let ghost win = window@;
    let mut a: i64 = 0;
    let mut b: i64 = 0;
    let mut c: i64 = 0;
    let mut k: usize = 0;
    while k < window.len()
        invariant
            win == window@,
            win == window_spec(n as int),
            win.len() <= n * n,
            n * n <= 2001 * 2001,
            n == 2 * r + 1,
            r <= 1000,
            x0 == x - r,
            y0 == y - r,
            patch.wf(),
            patch.width == n,
            patch.height == n,
            ix@.len() == n * n,
            iy@.len() == n * n,
            forall|i: int|
                0 <= i < ix@.len() ==> #[trigger] ix@[i] == sobel_h_at(
                    patch,
                    i % (n as int),
                    i / (n as int),
                ),
            forall|i: int|
                0 <= i < iy@.len() ==> #[trigger] iy@[i] == sobel_v_at(
                    patch,
                    i % (n as int),
                    i / (n as int),
                ),
            forall|p: int, q: int| #[trigger]
                patch.clamped(p, q) == patch_clamped(*src, x0 as int, y0 as int, n as int, p, q),
            k <= win.len(),
            (a as int, b as int, c as int) == tensor(
                *src,
                x0 as int,
                y0 as int,
                r as int,
                win.take(k as int),
            ),
            0 <= a <= k * 1040400,
            0 <= b <= k * 1040400,
            -(k * 1040400) <= c <= k * 1040400,
        decreases win.len() - k,
    {
        let (i, j) = window[k];
        proof {
            grid(n as int).lemma_filter_pred(disc(n as int), k as int);
            lemma_disc_bounds(n as int, (i, j));
        }
        let u = (i + r as i32) as usize;
        let v = (j + r as i32) as usize;
        proof {
            lemma_index_in_bounds(n as int, n as int, u as int, v as int);
            vstd::arithmetic::div_mod::lemma_fundamental_div_mod_converse(
                v * n + u,
                n as int,
                v as int,
                u as int,
            );
        }
        let idx = v * n as usize + u;
        let gx = ix[idx] as i64;
        let gy = iy[idx] as i64;
        proof {
            assert(gx * gx <= 1040400 && gy * gy <= 1040400 && -1040400 <= gx * gy <= 1040400)
                by (nonlinear_arith)
                requires
                    -1020 <= gx <= 1020,
                    -1020 <= gy <= 1020,
            ;
            assert(gx * gx >= 0 && gy * gy >= 0) by (nonlinear_arith);
            assert(win.take(k + 1).drop_last() =~= win.take(k as int));
            assert(k * 1040400 + 1040400 <= win.len() * 1040400);
        }
        a = a + gx * gx;
        b = b + gy * gy;
        c = c + gx * gy;
        k = k + 1;
    }
    proof {
        assert(win.take(k as int) =~= win);
        assert(a * b <= 5_000_000_000_000i128 * 5_000_000_000_000i128) by (nonlinear_arith)
            requires
                0 <= a <= 5_000_000_000_000i128,
                0 <= b <= 5_000_000_000_000i128,
        ;
        assert(c * c <= 5_000_000_000_000i128 * 5_000_000_000_000i128) by (nonlinear_arith)
            requires
                -5_000_000_000_000i128 <= c <= 5_000_000_000_000i128,
        ;
        assert(c * c >= 0 && a * b >= 0) by (nonlinear_arith)
            requires
                a >= 0,
                b >= 0,
        ;
        assert((a + b) * (a + b) <= 10_000_000_000_000i128 * 10_000_000_000_000i128) by (nonlinear_arith)
            requires
                0 <= a + b <= 10_000_000_000_000i128,
        ;
    }
    let (a, b, c) = (a as i128, b as i128, c as i128);
    100 * (a * b - c * c) - 6 * ((a + b) * (a + b))
}

/// Every sample in the image is `v`.
pub open spec fn uniform_image(src: Gray, v: u8) -> bool {
    forall|a: int, b: int|
        0 <= a < src.width && 0 <= b < src.height ==> #[trigger] src.pixel(a, b) == v
}

/// Over the `(2r + 1)`-square centred at `(x, y)`, samples depend on the
/// column alone (a horizontal ramp, for one).
pub open spec fn columns_constant(src: Gray, x: int, y: int, r: int) -> bool {
    forall|a: int, b: int|
        x - r <= a <= x + r && y - r <= b <= y + r ==> #[trigger] src.pixel(a, b) == src.pixel(a, y - r)
}

/// Over the `(2r + 1)`-square centred at `(x, y)`, samples depend on the row
/// alone (a vertical ramp, for one).
pub open spec fn rows_constant(src: Gray, x: int, y: int, r: int) -> bool {
    forall|a: int, b: int|
        x - r <= a <= x + r && y - r <= b <= y + r ==> #[trigger] src.pixel(a, b) == src.pixel(x - r, b)
}

proof fn lemma_tensor_no_vertical(src: Gray, x0: int, y0: int, r: int, win: Seq<(i32, i32)>)
    requires
        forall|u: int, v: int| #[trigger] patch_sobel_v(src, x0, y0, 2 * r + 1, u, v) == 0,
    ensures
        tensor(src, x0, y0, r, win).1 == 0,
        tensor(src, x0, y0, r, win).2 == 0,
        tensor(src, x0, y0, r, win).0 >= 0,
    decreases win.len(),
{
    if win.len() > 0 {
        lemma_tensor_no_vertical(src, x0, y0, r, win.drop_last());
        let o = win.last();
        let gx = patch_sobel_h(src, x0, y0, 2 * r + 1, o.0 + r, o.1 + r);
        assert(gx * gx >= 0) by (nonlinear_arith);
        assert(patch_sobel_v(src, x0, y0, 2 * r + 1, o.0 + r, o.1 + r) == 0);
    }
}

proof fn lemma_tensor_no_horizontal(src: Gray, x0: int, y0: int, r: int, win: Seq<(i32, i32)>)
    requires
        forall|u: int, v: int| #[trigger] patch_sobel_h(src, x0, y0, 2 * r + 1, u, v) == 0,
    ensures
        tensor(src, x0, y0, r, win).0 == 0,
        tensor(src, x0, y0, r, win).2 == 0,
        tensor(src, x0, y0, r, win).1 >= 0,
    decreases win.len(),
{
    if win.len() > 0 {
        lemma_tensor_no_horizontal(src, x0, y0, r, win.drop_last());
        let o = win.last();
        let gy = patch_sobel_v(src, x0, y0, 2 * r + 1, o.0 + r, o.1 + r);
        assert(gy * gy >= 0) by (nonlinear_arith);
        assert(patch_sobel_h(src, x0, y0, 2 * r + 1, o.0 + r, o.1 + r) == 0);
    }
}

/// The Harris score at a centre around which the samples depend on the
/// column alone, or on the row alone, is never positive.
pub proof fn lemma_harris_ramp_not_positive(src: Gray, x: int, y: int, r: int)
    requires
        src.wf(),
        r >= 0,
        columns_constant(src, x, y, r) || rows_constant(src, x, y, r),
    ensures
        harris_spec(src, x, y, r) <= 0,
{
    if !near_edge(src.width as int, src.height as int, x, y, r) {
        let n = 2 * r + 1;
        let x0 = x - r;
        let y0 = y - r;
        let win = window_spec(n);
        if columns_constant(src, x, y, r) {
            assert forall|u: int, v: int| #[trigger] patch_sobel_v(src, x0, y0, n, u, v) == 0 by {
                assert forall|p: int, q: int| #[trigger] patch_clamped(src, x0, y0, n, p, q)
                    == patch_clamped(src, x0, y0, n, p, 0) by {}
            }
            lemma_tensor_no_vertical(src, x0, y0, r, win);
            let a = tensor(src, x0, y0, r, win).0;
            assert(a * a >= 0) by (nonlinear_arith);
            assert(a * 0 == 0);
        } else {
            assert forall|u: int, v: int| #[trigger] patch_sobel_h(src, x0, y0, n, u, v) == 0 by {
                assert forall|p: int, q: int| #[trigger] patch_clamped(src, x0, y0, n, p, q)
                    == patch_clamped(src, x0, y0, n, 0, q) by {}
            }
            lemma_tensor_no_horizontal(src, x0, y0, r, win);
            let b = tensor(src, x0, y0, r, win).1;
            assert(b * b >= 0) by (nonlinear_arith);
            assert(0 * b == 0);
        }
    }
}

/// The Harris score anywhere on a uniform image is zero.
pub proof fn lemma_harris_uniform_zero(src: Gray, v: u8, x: int, y: int, r: int)
    requires
        src.wf(),
        r >= 0,
        uniform_image(src, v),
    ensures
        harris_spec(src, x, y, r) == 0,
{
    if !near_edge(src.width as int, src.height as int, x, y, r) {
        let n = 2 * r + 1;
        let x0 = x - r;
        let y0 = y - r;
        let win = window_spec(n);
        assert forall|p: int, q: int| #[trigger] patch_clamped(src, x0, y0, n, p, q) == v by {}
        assert forall|u: int, v: int| #[trigger] patch_sobel_v(src, x0, y0, n, u, v) == 0 by {}
        assert forall|u: int, v: int| #[trigger] patch_sobel_h(src, x0, y0, n, u, v) == 0 by {}
        lemma_tensor_no_vertical(src, x0, y0, r, win);
        lemma_tensor_no_horizontal(src, x0, y0, r, win);
    }
}

/// First-order moments `(m01, m10)` of `src` over the offsets `win` around
/// `(x, y)`: the sums of `j * I(x + i, y + j)` and of `i * I(x + i, y + j)`.
pub open spec fn moments(src: Gray, x: int, y: int, win: Seq<(i32, i32)>) -> (int, int)
    decreases win.len(),
{
    if win.len() == 0 {
        (0, 0)
    } else {
        let (m01, m10) = moments(src, x, y, win.drop_last());
        let o = win.last();
        let p = src.pixel(x + o.0, y + o.1) as int;
        (m01 + o.1 * p, m10 + o.0 * p)
    }
}

/// The intensity-centroid moments at `(x, y)` over the disc of radius
/// `r + 1/2`; `(0, 0)` within `r` pixels of an edge.
pub open spec fn orientation_spec(src: Gray, x: int, y: int, r: int) -> (int, int) {
    if near_edge(src.width as int, src.height as int, x, y, r) {
        (0, 0)
    } else {
        moments(src, x, y, window_spec(2 * r + 1))
    }
}

/// The intensity-centroid moments `(m01, m10)` of `image` at `(x, y)` over the
/// discrete disc of radius `r + 1/2`, or `(0, 0)` within `r` pixels of an
/// edge. The orientation of the feature is `atan2(m01, m10)`.
///
/// The radius is at most 1000, as for `harris_score`: each moment is then a
/// sum of at most `2001^2` terms of size at most `1000 * 255`, within `i64`.
pub fn orientation(image: &Gray, x: u32, y: u32, r: u32) -> (m: (i64, i64))
    requires
        image.wf(),
        r <= 1000,
    ensures
        (m.0 as int, m.1 as int) == orientation_spec(*image, x as int, y as int, r as int),
{
    if x < r || y < r || x as u64 + r as u64 >= image.width as u64 || y as u64 + r as u64
        >= image.height as u64 {
        return (0, 0);
    }
    let n = 2 * r + 1;
    let window = circular_window(n);
    proof {
        grid(n as int).lemma_filter_len(disc(n as int));
        lemma_index_in_bounds(n as int, n as int, 0, 0);
        assert(n * n <= 2001 * 2001) by (nonlinear_arith)
            requires
                n <= 2001,
        ;
    }
    let ghost win = window@;
    let mut m01: i64 = 0;
    let mut m10: i64 = 0;
    let mut k: usize = 0;
    while k < window.len()
        invariant
            win == window@,
            win == window_spec(n as int),
            win.len() <= n * n,
            n * n <= 2001 * 2001,
            n == 2 * r + 1,
            r <= 1000,
            image.wf(),
            !near_edge(image.width as int, image.height as int, x as int, y as int, r as int),
            k <= win.len(),
            (m01 as int, m10 as int) == moments(*image, x as int, y as int, win.take(k as int)),
            -(k * 255000) <= m01 <= k * 255000,
            -(k * 255000) <= m10 <= k * 255000,
        decreases win.len() - k,
    {
        let (i, j) = window[k];
        proof {
            grid(n as int).lemma_filter_pred(disc(n as int), k as int);
            lemma_disc_bounds(n as int, (i, j));
        }
        let p = image.get_pixel((x as i64 + i as i64) as u32, (y as i64 + j as i64) as u32) as i64;
        proof {
            assert(-255000 <= (j as int) * p <= 255000 && -255000 <= (i as int) * p <= 255000)
                by (nonlinear_arith)
                requires
                    -1000 <= i <= 1000,
                    -1000 <= j <= 1000,
                    0 <= p <= 255,
            ;
            assert(win.take(k + 1).drop_last() =~= win.take(k as int));
            assert(k * 255000 + 255000 <= win.len() * 255000);
        }
        m01 = m01 + j as i64 * p;
        m10 = m10 + i as i64 * p;
        k = k + 1;
    }
    proof {
        assert(win.take(k as int) =~= win);
    }
    (m01, m10)
}

/// A candidate position with its scaled Harris score.
#[derive(Clone, Copy, Debug, PartialEq, Eq, Structural)]
pub struct Corner {
    pub x: u32,
    pub y: u32,
    pub score: i128,
}

/// The positions that FAST-9 reports on a `w` by `h` image with these
/// samples at this threshold, in the order it reports them.
pub uninterp spec fn fast9_of(w: u32, h: u32, pixels: Seq<u8>, threshold: u8) -> Seq<(u32, u32)>;

/// Relies on imageproc::corners::corners_fast9: its result depends on the
/// image and the threshold alone, and it only reports positions inside the
/// image (it scans `0..width` by `0..height`).
#[verifier::external_body]
fn corners_fast9(src: &Gray, threshold: u8) -> (r: Vec<(u32, u32)>)
    requires
        src.wf(),
    ensures
        r@ == fast9_of(src.width, src.height, src.pixels@, threshold),
        forall|k: int| 0 <= k < r@.len() ==> (#[trigger] r@[k]).0 < src.width && r@[k].1 < src.height,
{
    let img = image::GrayImage::from_raw(src.width, src.height, src.pixels.clone()).unwrap();
    imageproc::corners::corners_fast9(&img, threshold).iter().map(|c| (c.x, c.y)).collect()
}

/// Radius of the Harris window used to score corner candidates.
pub const HARRIS_RADIUS: u32 = 3;

/// Each candidate position with its Harris score at radius `HARRIS_RADIUS`,
/// in the same order.
pub fn score_candidates(src: &Gray, candidates: &Vec<(u32, u32)>) -> (r: Vec<Corner>)
    requires
        src.wf(),
    ensures
        r@.len() == candidates@.len(),
        forall|k: int|
            0 <= k < r@.len() ==> (#[trigger] r@[k]).x == candidates@[k].0 && r@[k].y
                == candidates@[k].1 && r@[k].score == harris_spec(
                *src,
                candidates@[k].0 as int,
                candidates@[k].1 as int,
                HARRIS_RADIUS as int,
            ),
{
    let mut out: Vec<Corner> = Vec::new();
    let mut k: usize = 0;
    while k < candidates.len()
        invariant
            src.wf(),
            k <= candidates@.len(),
            out@.len() == k,
            forall|q: int|
                0 <= q < k ==> (#[trigger] out@[q]).x == candidates@[q].0 && out@[q].y
                    == candidates@[q].1 && out@[q].score == harris_spec(
                    *src,
                    candidates@[q].0 as int,
                    candidates@[q].1 as int,
                    HARRIS_RADIUS as int,
                ),
        decreases candidates@.len() - k,
    {
        let (x, y) = candidates[k];
        let score = harris_score(src, x, y, HARRIS_RADIUS);
        out.push(Corner { x, y, score });
        k = k + 1;
    }
    out
}

/// FAST-9 corners of `src` at `threshold`, each re-scored by Harris.
pub fn find_features(src: &Gray, threshold: u8) -> (r: Vec<Corner>)
    requires
        src.wf(),
    ensures
        r@.len() == fast9_of(src.width, src.height, src.pixels@, threshold).len(),
        forall|k: int|
            0 <= k < r@.len() ==> {
                let c = #[trigger] fast9_of(src.width, src.height, src.pixels@, threshold)[k];
                r@[k].x == c.0 && r@[k].y == c.1 && r@[k].x < src.width && r@[k].y < src.height
                    && r@[k].score == harris_spec(*src, c.0 as int, c.1 as int, HARRIS_RADIUS as int)
            },
{
    let candidates = corners_fast9(src, threshold);
    score_candidates(src, &candidates)
}

} // verus!
