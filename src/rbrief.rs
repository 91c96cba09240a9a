//! Rotated BRIEF: sampling geometry, test pairs and the enumeration of every
//! admissible pair used for training.
use vstd::prelude::*;
use crate::corners::{crop, near_edge};
use crate::gray::Gray;
use crate::integral::{Integral, box5, box5_inside, integral_image, lemma_box_bounds, lemma_box_shift, sum_image_pixels};

verus! {

/// Half the side of the sampled patch.
pub const HWIDTH: u32 = 15;

/// Half the side of the box averaged at each sample point.
pub const HWINDOW: u32 = 2;

/// Side of the box averaged at each sample point: `2 * HWINDOW + 1`.
pub const WINDOW: i32 = 5;

/// Largest coordinate of a sample point: `HWIDTH - HWINDOW`.
pub const MAX: i32 = 13;

/// Radius needed around a feature for every rotated sample box:
/// `floor(HWIDTH * sqrt(2)) + HWINDOW`.
pub const RADIUS: u32 = 23;

/// A signed 2D offset of a sample point.
#[derive(Clone, Copy, Debug, PartialEq, Eq, Structural)]
pub struct Point {
    pub x: i32,
    pub y: i32,
}

/// An ordered pair of sample points; the test compares their box sums.
#[derive(Clone, Copy, Debug, PartialEq, Eq, Structural)]
pub struct PairPoint(pub Point, pub Point);

pub open spec fn abs_int(a: int) -> int {
    if a < 0 { -a } else { a }
}

/// Both boxes of the pair intersect.
pub open spec fn overlaps_spec(p: PairPoint) -> bool {
    abs_int(p.0.x - p.1.x) < WINDOW && abs_int(p.0.y - p.1.y) < WINDOW
}

pub open spec fn point_valid(p: Point) -> bool {
    abs_int(p.x as int) <= MAX && abs_int(p.y as int) <= MAX
}

/// Both endpoints lie within `[-MAX, MAX]` on both axes.
pub open spec fn pair_valid(p: PairPoint) -> bool {
    point_valid(p.0) && point_valid(p.1)
}

/// Position of a point in the row-major scan of the `[-MAX, MAX]` grid
/// (the row `MAX + 1` just past the grid continues the numbering).
pub open spec fn rank(p: Point) -> int {
    (p.y + 13) * 27 + (p.x + 13)
}

/// The states that the enumeration passes through: the second point never
/// precedes the first in the scan, and only the first may have left the grid
/// by one row (then the second is on that row too).
pub open spec fn in_scan(p: PairPoint) -> bool {
    &&& -MAX <= p.0.x <= MAX && -MAX <= p.1.x <= MAX
    &&& -MAX <= p.0.y <= MAX + 1 && -MAX <= p.1.y <= MAX + 1
    &&& p.1.y == MAX + 1 ==> p.0.y == MAX + 1
    &&& rank(p.0) <= rank(p.1)
}

/// Scan order of enumeration states: by the first point, then the second.
pub open spec fn scan_lt(a: PairPoint, b: PairPoint) -> bool {
    rank(a.0) < rank(b.0) || (rank(a.0) == rank(b.0) && rank(a.1) < rank(b.1))
}

/// `b` is the first non-overlapping scan state after `a`.
pub open spec fn next_non_overlapping(a: PairPoint, b: PairPoint) -> bool {
    &&& in_scan(b)
    &&& scan_lt(a, b)
    &&& !overlaps_spec(b)
    &&& forall|s: PairPoint| in_scan(s) && scan_lt(a, s) && #[trigger] scan_lt(s, b) ==> overlaps_spec(s)
}

/// The scan state that follows `p`.
pub open spec fn step_spec(p: PairPoint) -> PairPoint {
    if p.1.x < MAX {
        PairPoint(p.0, Point { x: (p.1.x + 1) as i32, y: p.1.y })
    } else if p.1.y < MAX {
        PairPoint(p.0, Point { x: -MAX as i32, y: (p.1.y + 1) as i32 })
    } else if p.0.x < MAX {
        let a = Point { x: (p.0.x + 1) as i32, y: p.0.y };
        PairPoint(a, a)
    } else {
        let a = Point { x: -MAX as i32, y: (p.0.y + 1) as i32 };
        PairPoint(a, a)
    }
}

/// No scan state lies strictly between `p` and its step.
proof fn lemma_step_is_successor(p: PairPoint)
    requires
        in_scan(p),
        p.0.y == MAX + 1 ==> p.1.x < MAX,
    ensures
        in_scan(step_spec(p)),
        scan_lt(p, step_spec(p)),
        forall|s: PairPoint| in_scan(s) && scan_lt(p, s) ==> !scan_lt(s, step_spec(p)),
{
}

/// The enumeration from `p` yields exactly `n` pairs: `p` and each
/// next non-overlapping state after it are valid, `n` times, and the state
/// after them is not.
pub open spec fn pairs_left(p: PairPoint, n: nat) -> bool
    decreases n,
{
    if n == 0 {
        !pair_valid(p)
    } else {
        pair_valid(p) && exists|q: PairPoint| #[trigger] next_non_overlapping(p, q) && pairs_left(q, (n - 1) as nat)
    }
}

/// Value of the measure that the enumeration increases.
pub open spec fn scan_measure(p: PairPoint) -> int {
    (810 - rank(p.0)) * 1000 + (810 - rank(p.1))
}

impl PairPoint {
    /// The iterator over every non-overlapping pair of valid points.
    pub fn all_pairs() -> (r: RBriefPairIter)
        ensures
            r.pair == PairPoint::from_spec(-MAX, -MAX, -MAX + WINDOW, -MAX),
    {
        PairPoint(Point { x: -MAX, y: -MAX }, Point { x: -MAX + WINDOW, y: -MAX }).iter()
    }

    pub open spec fn from_spec(a: int, b: int, c: int, d: int) -> PairPoint {
        PairPoint(Point { x: a as i32, y: b as i32 }, Point { x: c as i32, y: d as i32 })
    }

    /// The pair `((a, b), (c, d))`.
    pub fn from(a: i32, b: i32, c: i32, d: i32) -> (r: PairPoint)
        ensures
            r == PairPoint::from_spec(a as int, b as int, c as int, d as int),
    {
        PairPoint(Point { x: a, y: b }, Point { x: c, y: d })
    }

    /// Whether the two sample boxes intersect.
    pub fn overlaps(&self) -> (r: bool)
        requires
            pair_valid(*self) || in_scan(*self),
        ensures
            r == overlaps_spec(*self),
    {
        let w = WINDOW;
        let dx = self.0.x - self.1.x;
        let dy = self.0.y - self.1.y;
        (if dx < 0 { -dx } else { dx }) < w && (if dy < 0 { -dy } else { dy }) < w
    }

    /// Whether both endpoints lie within `[-MAX, MAX]` on both axes.
    pub fn valid(&self) -> (r: bool)
        ensures
            r == pair_valid(*self),
    {
        -MAX <= self.0.x && self.0.x <= MAX && -MAX <= self.0.y && self.0.y <= MAX
            && -MAX <= self.1.x && self.1.x <= MAX && -MAX <= self.1.y && self.1.y <= MAX
    }

    /// The enumeration of pairs starting at this one.
    pub fn iter(&self) -> (r: RBriefPairIter)
        ensures
            r.pair == *self,
    {
        RBriefPairIter { pair: *self }
    }
}

/// Enumerates, in scan order, the pairs `(p, q)` of valid points with `q` not
/// before `p` in the row-major scan and whose boxes do not overlap.
pub struct RBriefPairIter {
    pub pair: PairPoint,
}

impl RBriefPairIter {
    /// Hands out the current pair if it is valid, and moves on to the next
    /// non-overlapping one; an invalid pair ends the enumeration.
    pub fn next(&mut self) -> (r: Option<PairPoint>)
        requires
            pair_valid(old(self).pair) ==> in_scan(old(self).pair),
        ensures
            pair_valid(old(self).pair) ==> r == Some(old(self).pair) && next_non_overlapping(
                old(self).pair,
                final(self).pair,
            ),
            !pair_valid(old(self).pair) ==> r.is_none() && final(self).pair == old(self).pair,
    {
        if !self.pair.valid() {
            return None;
        }
        let ret = Some(self.pair);
        let ghost start = self.pair;
        loop
            invariant_except_break
                self.pair != start ==> overlaps_spec(self.pair),
                forall|s: PairPoint|
                    in_scan(s) && scan_lt(start, s) && #[trigger] scan_lt(s, self.pair)
                        ==> overlaps_spec(s),
            invariant
                in_scan(self.pair),
                self.pair == start || scan_lt(start, self.pair),
                self.pair.0.y == MAX + 1 ==> self.pair.0.x == -MAX && self.pair.1.y == MAX + 1
                    && self.pair.1.x <= -MAX + WINDOW,
                pair_valid(start),
                in_scan(start),
            ensures
                next_non_overlapping(start, self.pair),
            decreases scan_measure(self.pair),
        {
            proof {
                lemma_step_is_successor(self.pair);
            }
            let ghost prev = self.pair;
            if self.pair.1.x < MAX {
                self.pair.1.x = self.pair.1.x + 1;
            } else if self.pair.1.y < MAX {
                self.pair.1.y = self.pair.1.y + 1;
                self.pair.1.x = -MAX;
            } else if self.pair.0.x < MAX {
                self.pair.0.x = self.pair.0.x + 1;
                self.pair.1.y = self.pair.0.y;
                self.pair.1.x = self.pair.0.x;
            } else {
                self.pair.0.y = self.pair.0.y + 1;
                self.pair.0.x = -MAX;
                self.pair.1.y = self.pair.0.y;
                self.pair.1.x = self.pair.0.x;
            }
            assert(self.pair == step_spec(prev));
            assert forall|s: PairPoint|
                in_scan(s) && scan_lt(start, s) && #[trigger] scan_lt(s, self.pair) implies overlaps_spec(
                s,
            ) by {
                if !scan_lt(s, prev) && !scan_lt(prev, s) {
                    assert(s.0 == prev.0 && s.1 == prev.1);
                }
            }
            if !self.pair.overlaps() {
                break;
            }
        }
        ret
    }

    /// Number of pairs left in the enumeration.
    pub fn count(self) -> (r: usize)
        requires
            pair_valid(self.pair) ==> in_scan(self.pair),
        ensures
            pairs_left(self.pair, r as nat),
    {
        if !self.pair.valid() {
            return 0;
        }
        let ghost start = self.pair;
        let mut it = self;
        let mut n: usize = 0;
        loop
            invariant
                in_scan(it.pair),
                n + scan_measure(it.pair) <= scan_measure(start),
                scan_measure(start) <= 1_000_000,
                forall|m: nat| #[trigger] pairs_left(it.pair, m) ==> pairs_left(start, (n + m) as nat),
            ensures
                !pair_valid(it.pair),
                forall|m: nat| #[trigger] pairs_left(it.pair, m) ==> pairs_left(start, (n + m) as nat),
            decreases scan_measure(it.pair),
        {
            let ghost before = it.pair;
            match it.next() {
                Some(_) => {
                    assert(scan_lt(before, it.pair));
                    proof {
                        assert forall|m: nat| #[trigger] pairs_left(it.pair, m) implies pairs_left(
                            start,
                            (n + 1 + m) as nat,
                        ) by {
                            assert(pairs_left(before, m + 1));
                        }
                    }
                    n = n + 1;
                },
                None => {
                    break;
                },
            }
        }
        assert(pairs_left(it.pair, 0));
        assert(pairs_left(start, (n + 0) as nat));
        n
    }
}

/// The sum of the 5x5 box at `offset + p` in the source of `image`.
pub fn sample(image: &Integral, offset: &Point, p: &Point) -> (r: u32)
    requires
        image.wf(),
        box5_inside(*image, offset.x + p.x, offset.y + p.y),
    ensures
        r == box5(image.source@, offset.x + p.x, offset.y + p.y),
{
    let cx = offset.x as i64 + p.x as i64;
    let cy = offset.y as i64 + p.y as i64;
    let l = (cx - 2) as u32;
    let r = (cx + 2) as u32;
    let t = (cy - 2) as u32;
    let b = (cy + 2) as u32;
    let s = sum_image_pixels(image, l, t, r, b);
    proof {
        lemma_box_bounds(image.source@, cx - 2, cx + 3, cy - 2, cy + 3);
    }
    s as u32
}

/// The rBRIEF test of `pair` around `offset`: the first box is brighter.
pub open spec fn test_spec(src: Gray, offset: Point, pair: PairPoint) -> bool {
    test_at(src, offset.x as int, offset.y as int, pair)
}

/// The rBRIEF test of `pair` around `(cx, cy)`.
pub open spec fn test_at(src: Gray, cx: int, cy: int, pair: PairPoint) -> bool {
    box5(src, cx + pair.0.x, cy + pair.0.y) > box5(src, cx + pair.1.x, cy + pair.1.y)
}

/// Swapping the points of a pair reverses its test wherever their box sums
/// differ.
pub proof fn lemma_test_swap(src: Gray, cx: int, cy: int, pair: PairPoint)
    requires
        box5(src, cx + pair.0.x, cy + pair.0.y) != box5(src, cx + pair.1.x, cy + pair.1.y),
    ensures
        test_at(src, cx, cy, PairPoint(pair.1, pair.0)) == !test_at(src, cx, cy, pair),
{
}

/// Both boxes of `pair` around `offset` lie inside the source of `image`.
pub open spec fn pair_inside(image: Integral, offset: Point, pair: PairPoint) -> bool {
    box5_inside(image, offset.x + pair.0.x, offset.y + pair.0.y) && box5_inside(
        image,
        offset.x + pair.1.x,
        offset.y + pair.1.y,
    )
}

/// Whether the box at the first point of `p` has a larger sum than the box at
/// its second point.
pub fn test(image: &Integral, offset: &Point, p: &PairPoint) -> (r: bool)
    requires
        image.wf(),
        pair_inside(*image, *offset, *p),
    ensures
        r == test_spec(image.source@, *offset, *p),
{
    sample(image, offset, &p.0) > sample(image, offset, &p.1)
}

/// Bit `i` of `d` is set.
pub open spec fn bit(d: u128, i: int) -> bool {
    (d >> (i as u128)) & 1 == 1
}

proof fn lemma_set_bit(d: u128, i: u128)
    requires
        i < 128,
    ensures
        forall|q: u128|
            q < 128 ==> #[trigger] ((d | (1u128 << i)) >> q) & 1 == if q == i {
                1
            } else {
                (d >> q) & 1
            },
{
    assert(forall|q: u128|
        q < 128 ==> #[trigger] ((d | (1u128 << i)) >> q) & 1 == if q == i {
            1
        } else {
            (d >> q) & 1
        }) by (bit_vector)
        requires
            i < 128,
    ;
}

/// A base set of sampling pairs: exactly 128 pairs of valid points.
pub struct TestSet {
    pub set: Vec<PairPoint>,
}

/// Number of pairs, and of descriptor bits.
pub const NUM_PAIRS: usize = 128;

/// Why a list of coordinates is not a test set.
#[derive(Clone, Copy, Debug, PartialEq, Eq, Structural)]
pub enum TestSetError {
    /// Not `4 * NUM_PAIRS` coordinates, one outside `[-MAX, MAX]`, or a pair
    /// whose boxes overlap.
    InvalidFormat,
}

/// The coordinates `x1, y1, x2, y2` of every pair, in order.
pub open spec fn coords_of(pairs: Seq<PairPoint>) -> Seq<i32> {
    Seq::new(
        4 * pairs.len(),
        |k: int|
            {
                let p = pairs[k / 4];
                if k % 4 == 0 {
                    p.0.x
                } else if k % 4 == 1 {
                    p.0.y
                } else if k % 4 == 2 {
                    p.1.x
                } else {
                    p.1.y
                }
            },
    )
}

/// The pairs whose coordinates are the consecutive quadruples
/// `x1, y1, x2, y2` of `v` (a trailing incomplete one is ignored).
pub open spec fn quads(v: Seq<i32>) -> Seq<PairPoint> {
    Seq::new(
        v.len() / 4,
        |q: int| PairPoint(Point { x: v[4 * q], y: v[4 * q + 1] }, Point { x: v[4 * q + 2], y: v[4 * q + 3] }),
    )
}

/// Coordinates within `[-MAX, MAX]`.
pub open spec fn coords_valid(v: Seq<i32>) -> bool {
    forall|k: int| 0 <= k < v.len() ==> -MAX <= #[trigger] v[k] <= MAX
}

/// A pair of valid points whose boxes do not overlap.
pub open spec fn admissible(p: PairPoint) -> bool {
    pair_valid(p) && !overlaps_spec(p)
}

/// Admissibility, as a predicate.
pub open spec fn admissible_pred() -> spec_fn(PairPoint) -> bool {
    |p: PairPoint| admissible(p)
}

/// Relies on rand's `Uniform::new_inclusive(lo, hi)` sampled `n` times from
/// the thread-local generator: `n` values, each within `[lo, hi]` (it panics
/// when `lo > hi`).
#[verifier::external_body]
fn random_ints(n: usize, lo: i32, hi: i32) -> (r: Vec<i32>)
    requires
        lo <= hi,
    ensures
        r@.len() == n,
        forall|k: int| 0 <= k < n ==> lo <= #[trigger] r@[k] <= hi,
{
    let d = rand::distributions::Uniform::new_inclusive(lo, hi);
    rand::Rng::sample_iter(rand::thread_rng(), d).take(n).collect()
}

/// Relies on rand's `Uniform::new_inclusive(lo, hi)` sampled `n` times from
/// `StdRng::seed_from_u64(seed)`: `n` values, each within `[lo, hi]` (it
/// panics when `lo > hi`).
#[verifier::external_body]
fn seeded_ints(seed: u64, n: usize, lo: i32, hi: i32) -> (r: Vec<i32>)
    requires
        lo <= hi,
    ensures
        r@.len() == n,
        forall|k: int| 0 <= k < n ==> lo <= #[trigger] r@[k] <= hi,
{
    let d = rand::distributions::Uniform::new_inclusive(lo, hi);
    let rng: rand::rngs::StdRng = rand::SeedableRng::seed_from_u64(seed);
    rand::Rng::sample_iter(rng, d).take(n).collect()
}

/// Number of candidate pairs in one random draw.
pub const DRAW_PAIRS: usize = 512;

/// Number of random draws `TestSet::new` makes before it settles for the
/// fixed set.
pub const DRAWS: usize = 16;

/// Filtering a prefix gives a prefix of the filtered sequence.
proof fn lemma_filter_prefix(s: Seq<PairPoint>, q: int)
    requires
        0 <= q <= s.len(),
    ensures
        s.take(q).filter(admissible_pred()).len() <= s.filter(admissible_pred()).len(),
        s.filter(admissible_pred()).take(s.take(q).filter(admissible_pred()).len() as int)
            == s.take(q).filter(admissible_pred()),
    decreases s.len(),
{
    reveal(Seq::filter);
    let f = admissible_pred();
    if q == s.len() {
        assert(s.take(q) =~= s);
        assert(s.filter(f).take(s.filter(f).len() as int) =~= s.filter(f));
    } else {
        let t = s.drop_last();
        assert(s.take(q) =~= t.take(q));
        lemma_filter_prefix(t, q);
        let m = t.take(q).filter(f).len() as int;
        assert(s.filter(f).take(m) =~= t.filter(f).take(m));
    }
}

impl TestSet {
    /// 128 pairs of valid points whose boxes do not overlap.
    pub open spec fn wf(&self) -> bool {
        &&& self.set@.len() == NUM_PAIRS
        &&& forall|i: int| 0 <= i < self.set@.len() ==> admissible(#[trigger] self.set@[i])
    }

    /// Whether this is a well-formed test set.
    pub fn is_valid(&self) -> (r: bool)
        ensures
            r == self.wf(),
    {
        if self.set.len() != NUM_PAIRS {
            return false;
        }
        let mut i: usize = 0;
        while i < self.set.len()
            invariant
                i <= self.set@.len(),
                forall|q: int| 0 <= q < i ==> admissible(#[trigger] self.set@[q]),
            decreases self.set@.len() - i,
        {
            let p = self.set[i];
            if !p.valid() || p.overlaps() {
                return false;
            }
            i = i + 1;
        }
        true
    }

    /// The first `NUM_PAIRS` admissible pairs among the quadruples of `v`, in
    /// order; `None` when there are fewer.
    pub fn from_draws(v: &Vec<i32>) -> (r: Option<TestSet>)
        ensures
            r.is_some() <==> quads(v@).filter(admissible_pred()).len() >= NUM_PAIRS,
            r.is_some() ==> r.unwrap().wf() && r.unwrap().set@ == quads(v@).filter(
                admissible_pred(),
            ).take(NUM_PAIRS as int),
    {
        let ghost all = quads(v@);
        let len = v.len();
        let n = len / 4;
        let mut set: Vec<PairPoint> = Vec::new();
        let mut q: usize = 0;
        proof {
            reveal(Seq::filter);
            assert(all.take(0) =~= Seq::<PairPoint>::empty());
        }
        while q < n && set.len() < NUM_PAIRS
            invariant
                all == quads(v@),
                len == v@.len(),
                n == len / 4,
                n == all.len(),
                q <= n,
                set@.len() <= NUM_PAIRS,
                set@ == all.take(q as int).filter(admissible_pred()),
            decreases n - q,
        {
            assert(4 * q + 3 < v@.len());
            let p = PairPoint(
                Point { x: v[4 * q], y: v[4 * q + 1] },
                Point { x: v[4 * q + 2], y: v[4 * q + 3] },
            );
            proof {
                reveal(Seq::filter);
                assert(all.take(q + 1).drop_last() =~= all.take(q as int));
                assert(all.take(q + 1).last() == p);
            }
            if p.valid() && !p.overlaps() {
                set.push(p);
            }
            q = q + 1;
        }
        proof {
            lemma_filter_prefix(all, q as int);
            all.take(q as int).lemma_filter_len(admissible_pred());
        }
        if set.len() < NUM_PAIRS {
            proof {
                assert(all.take(q as int) =~= all);
            }
            return None;
        }
        let t = TestSet { set };
        proof {
            assert forall|i: int| 0 <= i < t.set@.len() implies admissible(#[trigger] t.set@[i]) by {
                all.take(q as int).lemma_filter_pred(admissible_pred(), i);
            }
        }
        Some(t)
    }

    /// A fixed well-formed set: vertical chords from the top to the bottom
    /// row, sweeping the columns.
    fn chords() -> (r: TestSet)
        ensures
            r.wf(),
    {
        let mut set: Vec<PairPoint> = Vec::new();
        let mut i: usize = 0;
        while i < NUM_PAIRS
            invariant
                i <= NUM_PAIRS,
                set@.len() == i,
                forall|q: int| 0 <= q < i ==> admissible(#[trigger] set@[q]),
            decreases NUM_PAIRS - i,
        {
            let x = (i % 27) as i32 - MAX;
            set.push(PairPoint(Point { x, y: -MAX }, Point { x, y: MAX }));
            i = i + 1;
        }
        TestSet { set }
    }

    /// A test set of random admissible pairs: each draw offers `DRAW_PAIRS`
    /// uniformly random pairs of valid points and the first `NUM_PAIRS`
    /// admissible ones are kept. Should `DRAWS` draws in a row each hold
    /// fewer (about nine candidates in ten are admissible), the fixed set of
    /// vertical chords is returned.
    pub fn new() -> (r: TestSet)
        ensures
            r.wf(),
    {
        let mut k: usize = 0;
        while k < DRAWS
            decreases DRAWS - k,
        {
            let v = random_ints(4 * DRAW_PAIRS, -MAX, MAX);
            match TestSet::from_draws(&v) {
                Some(t) => {
                    return t;
                },
                None => {},
            }
            k = k + 1;
        }
        TestSet::chords()
    }

    /// A test set of random admissible pairs drawn, as `new` does, from a
    /// generator seeded with `seed` (the seeds `seed`, `seed + 1`, ... for
    /// successive draws).
    pub fn from_seed(seed: u64) -> (r: TestSet)
        ensures
            r.wf(),
    {
        let mut k: usize = 0;
        while k < DRAWS
            decreases DRAWS - k,
        {
            let v = seeded_ints(seed.wrapping_add(k as u64), 4 * DRAW_PAIRS, -MAX, MAX);
            match TestSet::from_draws(&v) {
                Some(t) => {
                    return t;
                },
                None => {},
            }
            k = k + 1;
        }
        TestSet::chords()
    }

    /// The test set whose pairs have the coordinates `x1, y1, x2, y2` in turn;
    /// an error unless there are `4 * NUM_PAIRS` of them, all within
    /// `[-MAX, MAX]`, and no pair's boxes overlap.
    pub fn from_coords(v: &Vec<i32>) -> (r: Result<TestSet, TestSetError>)
        ensures
            r.is_ok() <==> v@.len() == 4 * NUM_PAIRS && coords_valid(v@) && forall|q: int|
                0 <= q < NUM_PAIRS ==> !overlaps_spec(#[trigger] quads(v@)[q]),
            r.is_ok() ==> r.unwrap().wf() && r.unwrap().set@ == quads(v@) && coords_of(r.unwrap().set@)
                == v@,
            r.is_err() ==> r == Err::<TestSet, TestSetError>(TestSetError::InvalidFormat),
    {
        if v.len() != 4 * NUM_PAIRS {
            return Err(TestSetError::InvalidFormat);
        }
        let mut k: usize = 0;
        while k < v.len()
            invariant
                k <= v@.len(),
                forall|q: int| 0 <= q < k ==> -MAX <= #[trigger] v@[q] <= MAX,
            decreases v@.len() - k,
        {
            if v[k] < -MAX || v[k] > MAX {
                return Err(TestSetError::InvalidFormat);
            }
            k = k + 1;
        }
        let mut set: Vec<PairPoint> = Vec::new();
        let mut i: usize = 0;
        while i < NUM_PAIRS
            invariant
                v@.len() == 4 * NUM_PAIRS,
                coords_valid(v@),
                i <= NUM_PAIRS,
                set@.len() == i,
                forall|q: int| 0 <= q < i ==> #[trigger] set@[q] == quads(v@)[q],
                forall|q: int| 0 <= q < i ==> !overlaps_spec(#[trigger] quads(v@)[q]),
            decreases NUM_PAIRS - i,
        {
            let p = PairPoint(
                Point { x: v[i * 4], y: v[i * 4 + 1] },
                Point { x: v[i * 4 + 2], y: v[i * 4 + 3] },
            );
            assert(p == quads(v@)[i as int]);
            if p.overlaps() {
                return Err(TestSetError::InvalidFormat);
            }
            set.push(p);
            i = i + 1;
        }
        let t = TestSet { set };
        proof {
            assert(t.set@ =~= quads(v@));
            assert forall|i: int| 0 <= i < t.set@.len() implies admissible(#[trigger] t.set@[i]) by {
                assert(-MAX <= v@[4 * i] <= MAX);
                assert(-MAX <= v@[4 * i + 1] <= MAX);
                assert(-MAX <= v@[4 * i + 2] <= MAX);
                assert(-MAX <= v@[4 * i + 3] <= MAX);
            }
            assert forall|k: int| 0 <= k < v@.len() implies #[trigger] coords_of(t.set@)[k] == v@[k] by {
                let q = k / 4;
                assert(4 * q <= k < 4 * q + 4);
            }
            assert(coords_of(t.set@) =~= v@);
        }
        Ok(t)
    }

    /// The coordinates `x1, y1, x2, y2` of every pair, in order.
    pub fn to_coords(&self) -> (r: Vec<i32>)
        requires
            self.set@.len() <= NUM_PAIRS,
        ensures
            r@ == coords_of(self.set@),
    {
        let mut v: Vec<i32> = Vec::new();
        let mut i: usize = 0;
        while i < self.set.len()
            invariant
                self.set@.len() <= NUM_PAIRS,
                i <= self.set@.len(),
                v@ =~= coords_of(self.set@.take(i as int)),
            decreases self.set@.len() - i,
        {
            let p = self.set[i];
            v.push(p.0.x);
            v.push(p.0.y);
            v.push(p.1.x);
            v.push(p.1.y);
            i = i + 1;
            proof {
                assert forall|k: int| 0 <= k < v@.len() implies #[trigger] v@[k] == coords_of(
                    self.set@.take(i as int),
                )[k] by {
                    let q = k / 4;
                    assert(4 * q <= k < 4 * q + 4);
                }
                assert(v@ =~= coords_of(self.set@.take(i as int)));
            }
        }
        proof {
            assert(self.set@.take(i as int) =~= self.set@);
        }
        v
    }
}

/// Writing a well-formed test set out as coordinates gives a list that
/// `from_coords` accepts and reads back into the same pairs.
pub proof fn lemma_coords_round_trip(s: TestSet)
    requires
        s.wf(),
    ensures
        coords_of(s.set@).len() == 4 * NUM_PAIRS,
        coords_valid(coords_of(s.set@)),
        quads(coords_of(s.set@)) == s.set@,
        forall|q: int| 0 <= q < NUM_PAIRS ==> !overlaps_spec(#[trigger] quads(coords_of(s.set@))[q]),
{
    let c = coords_of(s.set@);
    assert forall|k: int| 0 <= k < c.len() implies -MAX <= #[trigger] c[k] <= MAX by {
        let q = k / 4;
        assert(admissible(s.set@[q]));
    }
    let b = quads(c);
    assert forall|i: int| 0 <= i < b.len() implies #[trigger] b[i] == s.set@[i] by {
        assert(c[4 * i] == s.set@[i].0.x);
        assert(c[4 * i + 1] == s.set@[i].0.y);
        assert(c[4 * i + 2] == s.set@[i].1.x);
        assert(c[4 * i + 3] == s.set@[i].1.y);
    }
    assert(b =~= s.set@);
}

/// `d` holds, in bit `i`, the test of pair `i` of `pairs` around `(cx, cy)`.
pub open spec fn descriptor_of(d: u128, src: Gray, cx: int, cy: int, pairs: Seq<PairPoint>) -> bool {
    forall|i: int| 0 <= i < NUM_PAIRS ==> #[trigger] bit(d, i) == test_at(src, cx, cy, pairs[i])
}

/// The 128-bit descriptor around `p`: bit `i` is the test of pair `i`.
pub fn describe_with_testset(image: &Integral, p: &Point, set: &TestSet) -> (d: u128)
    requires
        image.wf(),
        set.set@.len() == NUM_PAIRS,
        forall|i: int| 0 <= i < NUM_PAIRS ==> pair_inside(*image, *p, #[trigger] set.set@[i]),
    ensures
        descriptor_of(d, image.source@, p.x as int, p.y as int, set.set@),
{
    let mut d: u128 = 0;
    let mut i: usize = 0;
    proof {
        assert forall|q: u128| q < 128 implies #[trigger] ((0u128 >> q) & 1) == 0 by {
            assert(forall|q: u128| q < 128 ==> #[trigger] ((0u128 >> q) & 1) == 0) by (bit_vector);
        }
    }
    while i < NUM_PAIRS
        invariant
            image.wf(),
            set.set@.len() == NUM_PAIRS,
            forall|q: int| 0 <= q < NUM_PAIRS ==> pair_inside(*image, *p, #[trigger] set.set@[q]),
            i <= NUM_PAIRS,
            forall|q: int| 0 <= q < i ==> #[trigger] bit(d, q) == test_spec(image.source@, *p, set.set@[q]),
            forall|q: u128| i <= q < 128 ==> #[trigger] ((d >> q) & 1) == 0,
        decreases NUM_PAIRS - i,
    {
        let ghost before = d;
        if test(image, p, &set.set[i]) {
            proof {
                lemma_set_bit(d, i as u128);
            }
            d = d | (1u128 << (i as u128));
            proof {
                assert forall|q: int| 0 <= q < i implies #[trigger] bit(d, q) == bit(before, q) by {
                    assert(((d >> (q as u128)) & 1) == ((before >> (q as u128)) & 1));
                }
                assert(((d >> (i as u128)) & 1) == 1);
            }
        }
        assert(bit(d, i as int) == test_spec(image.source@, *p, set.set@[i as int]));
        i = i + 1;
    }
    d
}

/// Largest coordinate of a rotated sample point whose box stays within
/// `RADIUS` of the centre: `RADIUS - HWINDOW`.
pub const SAMPLE_LIMIT: i32 = 21;

/// Number of angular bins, each `pi / 30` wide.
pub const NUM_BINS: usize = 30;

/// Every point of every pair lies within `SAMPLE_LIMIT` on both axes.
pub open spec fn pairs_within_radius(pairs: Seq<PairPoint>) -> bool {
    forall|i: int|
        0 <= i < pairs.len() ==> {
            let p = #[trigger] pairs[i];
            -SAMPLE_LIMIT <= p.0.x <= SAMPLE_LIMIT && -SAMPLE_LIMIT <= p.0.y <= SAMPLE_LIMIT
                && -SAMPLE_LIMIT <= p.1.x <= SAMPLE_LIMIT && -SAMPLE_LIMIT <= p.1.y <= SAMPLE_LIMIT
        }
}

/// A bank of sampling sets, one per angular bin: set `k` is the base set
/// rotated by `k * pi / 30`.
pub struct RBrief {
    pub sets: Vec<TestSet>,
}

/// Checks that every point of `pairs` lies within `SAMPLE_LIMIT`.
pub fn pairs_fit(pairs: &Vec<PairPoint>) -> (r: bool)
    ensures
        r == pairs_within_radius(pairs@),
{
    let mut i: usize = 0;
    while i < pairs.len()
        invariant
            i <= pairs@.len(),
            pairs_within_radius(pairs@.take(i as int)),
        decreases pairs@.len() - i,
    {
        let p = pairs[i];
        if p.0.x < -SAMPLE_LIMIT || p.0.x > SAMPLE_LIMIT || p.0.y < -SAMPLE_LIMIT || p.0.y
            > SAMPLE_LIMIT || p.1.x < -SAMPLE_LIMIT || p.1.x > SAMPLE_LIMIT || p.1.y
            < -SAMPLE_LIMIT || p.1.y > SAMPLE_LIMIT {
            assert(!pairs_within_radius(pairs@)) by {
                assert(pairs@[i as int] == p);
            }
            return false;
        }
        proof {
            assert forall|q: int| 0 <= q < i + 1 implies #[trigger] pairs@.take(i + 1)[q] == pairs@[q] by {}
            assert forall|q: int| 0 <= q < i implies #[trigger] pairs@.take(i as int)[q] == pairs@[q] by {}
        }
        i = i + 1;
    }
    assert(pairs@.take(i as int) =~= pairs@);
    true
}

/// Checks that one set has 128 pairs within `SAMPLE_LIMIT`.
fn set_fits(t: &TestSet) -> (r: bool)
    ensures
        r == (t.set@.len() == NUM_PAIRS && pairs_within_radius(t.set@)),
{
    t.set.len() == NUM_PAIRS && pairs_fit(&t.set)
}

impl RBrief {
    /// One set per bin, each of 128 pairs within `SAMPLE_LIMIT`; the set of
    /// bin 0, the base of the others, is a well-formed test set.
    pub open spec fn wf(&self) -> bool {
        &&& self.sets@.len() == NUM_BINS
        &&& self.sets@[0].wf()
        &&& forall|k: int|
            0 <= k < NUM_BINS ==> (#[trigger] self.sets@[k]).set@.len() == NUM_PAIRS
                && pairs_within_radius(self.sets@[k].set@)
    }

    /// The bank of the given sets, indexed by angular bin; `None` unless there
    /// are `NUM_BINS` sets of 128 pairs, every point within `SAMPLE_LIMIT`,
    /// the first of them (the base set) a well-formed test set.
    pub fn new(sets: Vec<TestSet>) -> (r: Option<RBrief>)
        ensures
            r.is_some() <==> sets@.len() == NUM_BINS && sets@[0].wf() && forall|k: int|
                0 <= k < NUM_BINS ==> (#[trigger] sets@[k]).set@.len() == NUM_PAIRS
                    && pairs_within_radius(sets@[k].set@),
            r.is_some() ==> r.unwrap().sets@ == sets@ && r.unwrap().wf(),
    {
        if sets.len() != NUM_BINS || !sets[0].is_valid() {
            return None;
        }
        let mut k: usize = 0;
        while k < sets.len()
            invariant
                k <= sets@.len(),
                sets@.len() == NUM_BINS,
                forall|q: int|
                    0 <= q < k ==> (#[trigger] sets@[q]).set@.len() == NUM_PAIRS
                        && pairs_within_radius(sets@[q].set@),
            decreases sets@.len() - k,
        {
            if !set_fits(&sets[k]) {
                return None;
            }
            k = k + 1;
        }
        Some(RBrief { sets })
    }

    /// The descriptor of the feature at `(x, y)` with the set of angular bin
    /// `bin % NUM_BINS`: bit `i` is set iff the box at the first point of pair
    /// `i` is brighter than the box at its second point. `None` within
    /// `RADIUS` pixels of an edge.
    pub fn describe(&self, image: &Gray, x: u32, y: u32, bin: usize) -> (r: Option<u128>)
        requires
            self.wf(),
            image.wf(),
        ensures
            r.is_none() <==> near_edge(
                image.width as int,
                image.height as int,
                x as int,
                y as int,
                RADIUS as int,
            ),
            r.is_some() ==> descriptor_of(
                r.unwrap(),
                *image,
                x as int,
                y as int,
                self.sets@[(bin % NUM_BINS) as int].set@,
            ),
    {
        let rad = RADIUS;
        if x < rad || y < rad || x as u64 + rad as u64 >= image.width as u64 || y as u64
            + rad as u64 >= image.height as u64 {
            return None;
        }
        let n = 2 * rad + 1;
        let view = crop(image, x - rad, y - rad, n);
        assert(n * n * 255 <= u32::MAX) by {
            assert(n == 47);
        }
        let integral = integral_image(&view);
        let centre = Point { x: rad as i32, y: rad as i32 };
        let set = &self.sets[bin % NUM_BINS];
        let d = describe_with_testset(&integral, &centre, set);
        proof {
            let src = *image;
            let x0 = x - rad;
            let y0 = y - rad;
            assert forall|i: int| 0 <= i < NUM_PAIRS implies #[trigger] bit(d, i) == test_at(
                src,
                x as int,
                y as int,
                set.set@[i],
            ) by {
                let pr = set.set@[i];
                assert(bit(d, i) == test_at(integral.source@, rad as int, rad as int, pr));
                lemma_box_shift(src, view, x0 as int, y0 as int, rad + pr.0.x - 2, rad + pr.0.x + 3, rad + pr.0.y - 2, rad + pr.0.y + 3);
                lemma_box_shift(src, view, x0 as int, y0 as int, rad + pr.1.x - 2, rad + pr.1.x + 3, rad + pr.1.y - 2, rad + pr.1.y + 3);
            }
        }
        Some(d)
    }
}

} // verus!
