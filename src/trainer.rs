//! Learning a base test set: every admissible pair is tested on every
//! training feature, then pairs of high variance and low mutual correlation
//! are picked greedily.
use vstd::prelude::*;
use crate::bitvec::{BitVec, count_diff, count_true};
use crate::corners::{crop, near_edge};
use crate::features::{sort_order, sorted_positions};
use crate::gray::Gray;
use crate::integral::{integral_image, lemma_box_shift};
use crate::rbrief::{
    PairPoint, Point, TestSet, MAX, NUM_PAIRS, RADIUS, WINDOW, in_scan, next_non_overlapping,
    pair_valid, pairs_fit, pairs_left, pairs_within_radius, admissible, overlaps_spec, scan_lt, scan_measure, test_at,
};

verus! {

/// Most training features the trainer accepts.
pub const MAX_SAMPLES: usize = 0x1000_0000;

/// Threshold on the mean correlation at the start, in millionths.
pub const START_THRESHOLD: i64 = 400_000;

/// First step of the threshold, in millionths.
pub const START_STEP: i64 = 10_000;

/// Number of threshold adjustments.
pub const ROUNDS: usize = 5;

/// Response vectors of every admissible pair over the training features.
pub struct Trainer {
    /// Every non-overlapping pair of valid points, in scan order.
    pub pairs: Vec<PairPoint>,
    /// `bits[k]` holds the test of `pairs[k]` on each feature added so far.
    pub bits: Vec<BitVec>,
    /// Number of features added.
    pub samples: usize,
}

impl Trainer {
    pub open spec fn wf(&self) -> bool {
        &&& self.pairs@.len() == self.bits@.len()
        &&& self.samples <= MAX_SAMPLES
        &&& forall|k: int|
            0 <= k < self.bits@.len() ==> (#[trigger] self.bits@[k]).wf() && self.bits@[k]@.len()
                == self.samples
        &&& forall|k: int| 0 <= k < self.pairs@.len() ==> admissible(#[trigger] self.pairs@[k])
    }

    /// A trainer over every non-overlapping pair, with no feature yet: its
    /// pairs are those that `PairPoint::all_pairs` enumerates, in order.
    pub fn new() -> (r: Trainer)
        ensures
            r.wf(),
            r.samples == 0,
            r.pairs@.len() > 0,
            r.pairs@[0] == PairPoint::from_spec(-MAX, -MAX, -MAX + WINDOW, -MAX),
            forall|k: int|
                0 <= k < r.pairs@.len() - 1 ==> next_non_overlapping(#[trigger] r.pairs@[k], r.pairs@[k + 1]),
            pairs_left(PairPoint::from_spec(-MAX, -MAX, -MAX + WINDOW, -MAX), r.pairs@.len()),
    {
        let mut it = PairPoint::all_pairs();
        let ghost first = it.pair;
        let mut pairs: Vec<PairPoint> = Vec::new();
        let mut bits: Vec<BitVec> = Vec::new();
        loop
            invariant
                first == PairPoint::from_spec(-MAX, -MAX, -MAX + WINDOW, -MAX),
                pair_valid(it.pair) ==> in_scan(it.pair),
                pairs@.len() == bits@.len(),
                forall|k: int| 0 <= k < bits@.len() ==> (#[trigger] bits@[k]).wf() && bits@[k]@.len() == 0,
                forall|k: int| 0 <= k < pairs@.len() ==> admissible(#[trigger] pairs@[k]),
                pairs@.len() == 0 ==> it.pair == first,
                pairs@.len() > 0 ==> pairs@[0] == first && next_non_overlapping(pairs@.last(), it.pair),
                forall|k: int|
                    0 <= k < pairs@.len() - 1 ==> next_non_overlapping(#[trigger] pairs@[k], pairs@[k + 1]),
                forall|m: nat| #[trigger] pairs_left(it.pair, m) ==> pairs_left(first, (pairs@.len() + m) as nat),
            ensures
                !pair_valid(it.pair),
                pairs@.len() > 0 ==> pairs@[0] == first,
                forall|k: int|
                    0 <= k < pairs@.len() - 1 ==> next_non_overlapping(#[trigger] pairs@[k], pairs@[k + 1]),
                forall|m: nat| #[trigger] pairs_left(it.pair, m) ==> pairs_left(first, (pairs@.len() + m) as nat),
            decreases scan_measure(it.pair),
        {
            let ghost before = it.pair;
            let ghost old_pairs = pairs@;
            match it.next() {
                Some(p) => {
                    assert(scan_lt(before, it.pair));
                    assert(!overlaps_spec(before));
                    pairs.push(p);
                    bits.push(BitVec::new());
                    proof {
                        assert forall|m: nat| #[trigger] pairs_left(it.pair, m) implies pairs_left(
                            first,
                            (pairs@.len() + m) as nat,
                        ) by {
                            assert(pairs_left(before, m + 1));
                        }
                        assert forall|k: int|
                            0 <= k < pairs@.len() - 1 implies next_non_overlapping(
                            #[trigger] pairs@[k],
                            pairs@[k + 1],
                        ) by {
                            if k < old_pairs.len() - 1 {
                                assert(pairs@[k] == old_pairs[k] && pairs@[k + 1] == old_pairs[k + 1]);
                            } else {
                                assert(pairs@[k] == old_pairs.last());
                            }
                        }
                    }
                },
                None => {
                    break;
                },
            }
        }
        proof {
            assert(pairs_left(it.pair, 0));
            assert(pairs_left(first, (pairs@.len() + 0) as nat));
            if pairs@.len() == 0 {
                assert(pair_valid(first));
            }
        }
        Trainer { pairs, bits, samples: 0 }
    }

    /// Adds the feature at `(x, y)` of `image`, whose orientation turned the
    /// enumerated pairs into `rotated`: each pair's bit vector gets the test
    /// of its rotated pair. Nothing is added, and `false` returned, within
    /// `RADIUS` of an edge, when `rotated` does not match the pairs one for
    /// one within `SAMPLE_LIMIT`, or when `MAX_SAMPLES` features are in.
    pub fn add_feature(&mut self, image: &Gray, x: u32, y: u32, rotated: &Vec<PairPoint>) -> (r: bool)
        requires
            old(self).wf(),
            image.wf(),
        ensures
            final(self).wf(),
            r == (!near_edge(image.width as int, image.height as int, x as int, y as int, RADIUS as int)
                && rotated@.len() == old(self).pairs@.len() && pairs_within_radius(rotated@)
                && old(self).samples < MAX_SAMPLES),
            final(self).pairs@ == old(self).pairs@,
            !r ==> final(self).samples == old(self).samples && final(self).bits@ == old(self).bits@,
            r ==> final(self).samples == old(self).samples + 1 && forall|k: int|
                0 <= k < final(self).bits@.len() ==> (#[trigger] final(self).bits@[k])@ == old(self).bits@[k]@.push(
                    test_at(*image, x as int, y as int, rotated@[k]),
                ),
    {
        let rad = RADIUS;
        if x < rad || y < rad || x as u64 + rad as u64 >= image.width as u64 || y as u64
            + rad as u64 >= image.height as u64 {
            return false;
        }
        if rotated.len() != self.pairs.len() || self.samples >= MAX_SAMPLES || !pairs_fit(rotated) {
            return false;
        }
        let n = 2 * rad + 1;
        let view = crop(image, x - rad, y - rad, n);
        assert(n * n * 255 <= u32::MAX) by {
            assert(n == 47);
        }
        let integral = integral_image(&view);
        let centre = Point { x: rad as i32, y: rad as i32 };
        let ghost old_bits = self.bits@;
        let ghost old_pairs = self.pairs@;
        let ghost old_samples = self.samples;
        let mut k: usize = 0;
        while k < rotated.len()
            invariant
                integral.wf(),
                integral.source@ == view,
                view.wf(),
                view.width == n,
                view.height == n,
                n == 47,
                rad == 23,
                centre == (Point { x: 23, y: 23 }),
                forall|q: int|
                    0 <= q < view.pixels@.len() ==> #[trigger] view.pixels@[q] == image.pixel(
                        (x - rad) + q % (n as int),
                        (y - rad) + q / (n as int),
                    ),
                pairs_within_radius(rotated@),
                rotated@.len() == self.bits@.len(),
                self.bits@.len() == old_bits.len(),
                old_bits == old(self).bits@,
                old_pairs == old(self).pairs@,
                old_samples == old(self).samples,
                self.pairs@ == old_pairs,
                self.samples == old_samples,
                self.pairs@.len() == self.bits@.len(),
                forall|q: int| 0 <= q < self.pairs@.len() ==> admissible(#[trigger] self.pairs@[q]),
                self.samples < MAX_SAMPLES,
                k <= rotated@.len(),
                forall|q: int|
                    0 <= q < self.bits@.len() ==> (#[trigger] self.bits@[q]).wf() && self.bits@[q]@.len()
                        == if q < k { self.samples + 1 } else { self.samples as int },
                forall|q: int| 0 <= q < k ==> (#[trigger] self.bits@[q])@ == old_bits[q]@.push(
                    test_at(*image, x as int, y as int, rotated@[q]),
                ),
                forall|q: int| k <= q < self.bits@.len() ==> #[trigger] self.bits@[q] == old_bits[q],
            decreases rotated@.len() - k,
        {
            let pr = rotated[k];
            let b = crate::rbrief::test(&integral, &centre, &pr);
            proof {
                assert(pairs_within_radius(rotated@));
                let x0 = x - rad;
                let y0 = y - rad;
                lemma_box_shift(*image, view, x0 as int, y0 as int, rad + pr.0.x - 2, rad + pr.0.x + 3, rad + pr.0.y - 2, rad + pr.0.y + 3);
                lemma_box_shift(*image, view, x0 as int, y0 as int, rad + pr.1.x - 2, rad + pr.1.x + 3, rad + pr.1.y - 2, rad + pr.1.y + 3);
            }
            self.bits[k].push(b);
            k = k + 1;
        }
        self.samples = self.samples + 1;
        true
    }
}

/// Distance of the mean of `b` from one half, times twice the length:
/// `|2 * ones - len|`.
pub open spec fn imbalance(b: Seq<bool>) -> int {
    let d = 2 * count_true(b) - b.len();
    if d < 0 { -d } else { d }
}

/// Sum over the selected pairs `sel` of the agreement `len - distance` of
/// pair `p`'s responses with theirs.
pub open spec fn agreement(bits: Seq<Seq<bool>>, p: int, sel: Seq<usize>) -> int
    decreases sel.len(),
{
    if sel.len() == 0 {
        0
    } else {
        agreement(bits, p, sel.drop_last()) + bits[p].len() - count_diff(bits[p], bits[sel.last() as int])
    }
}

/// Pair `p` joins `sel` when its mean correlation with the selected pairs,
/// `agreement / (len * |sel|)`, is below `tau` millionths.
pub open spec fn accepts(bits: Seq<Seq<bool>>, samples: int, p: int, sel: Seq<usize>, tau: int) -> bool {
    1_000_000 * agreement(bits, p, sel) < tau * samples * sel.len()
}

/// The greedy pass over `order` from position `j`, starting from `sel`: each
/// candidate in turn joins when it is accepted, until `NUM_PAIRS` are in.
pub open spec fn greedy(bits: Seq<Seq<bool>>, samples: int, order: Seq<usize>, tau: int, sel: Seq<usize>, j: int) -> Seq<usize>
    decreases order.len() - j,
{
    if j >= order.len() || sel.len() >= NUM_PAIRS {
        sel
    } else if accepts(bits, samples, order[j] as int, sel, tau) {
        greedy(bits, samples, order, tau, sel.push(order[j]), j + 1)
    } else {
        greedy(bits, samples, order, tau, sel, j + 1)
    }
}

/// One selection at threshold `tau`: the best-ranked pair, then the greedy
/// pass over the others.
pub open spec fn attempt(bits: Seq<Seq<bool>>, samples: int, order: Seq<usize>, tau: int) -> Seq<usize> {
    if order.len() == 0 {
        Seq::empty()
    } else {
        greedy(bits, samples, order, tau, seq![order[0]], 1)
    }
}

/// The step after an attempt of `n` pairs: halved and reversed when an upward
/// pass reached `NUM_PAIRS` or a downward one fell short of it.
pub open spec fn next_step(delta: int, n: int) -> int {
    if delta > 0 && n == NUM_PAIRS {
        -(delta / 2)
    } else if delta < 0 && n < NUM_PAIRS {
        (-delta) / 2
    } else {
        delta
    }
}

/// `rounds` attempts from threshold `tau` and step `delta`, keeping the last
/// selection of `NUM_PAIRS` pairs (`found` if none).
pub open spec fn rounds_from(bits: Seq<Seq<bool>>, samples: int, order: Seq<usize>, tau: int, delta: int, rounds: nat, found: Option<Seq<usize>>) -> Option<Seq<usize>>
    decreases rounds,
{
    if rounds == 0 {
        found
    } else {
        let sel = attempt(bits, samples, order, tau);
        let f = if sel.len() == NUM_PAIRS { Some(sel) } else { found };
        let d = next_step(delta, sel.len() as int);
        rounds_from(bits, samples, order, tau + d, d, (rounds - 1) as nat, f)
    }
}

impl Trainer {
    /// The response vectors, as bit sequences.
    pub open spec fn responses(&self) -> Seq<Seq<bool>> {
        self.bits@.map_values(|b: BitVec| b@)
    }

    /// The imbalance of every pair, in order.
    pub open spec fn imbalances(&self) -> Seq<i128> {
        self.bits@.map_values(|b: BitVec| imbalance(b@) as i128)
    }

    /// The agreement of pair `p` with the selected pairs `sel`.
    fn agreement_with(&self, p: usize, sel: &Vec<usize>) -> (r: i128)
        requires
            self.wf(),
            p < self.bits@.len(),
            sel@.len() <= NUM_PAIRS,
            forall|i: int| 0 <= i < sel@.len() ==> #[trigger] sel@[i] < self.bits@.len(),
        ensures
            r == agreement(self.responses(), p as int, sel@),
            0 <= r <= sel@.len() * self.samples,
    {
        let mut sum: i128 = 0;
        let mut i: usize = 0;
        while i < sel.len()
            invariant
                self.wf(),
                p < self.bits@.len(),
                sel@.len() <= NUM_PAIRS,
                forall|q: int| 0 <= q < sel@.len() ==> #[trigger] sel@[q] < self.bits@.len(),
                i <= sel@.len(),
                sum == agreement(self.responses(), p as int, sel@.take(i as int)),
                0 <= sum <= i * self.samples,
            decreases sel@.len() - i,
        {
            let r = sel[i];
            let d = self.bits[p].distance(&self.bits[r]);
            proof {
                assert(sel@.take(i + 1).drop_last() =~= sel@.take(i as int));
                assert(self.responses()[p as int] == self.bits@[p as int]@);
                assert(self.responses()[r as int] == self.bits@[r as int]@);
                crate::bitvec::lemma_count_diff_bound(self.bits@[p as int]@, self.bits@[r as int]@);
                assert((i + 1) * self.samples == i * self.samples + self.samples) by (nonlinear_arith);
                assert(i * self.samples <= 128 * 0x1000_0000) by (nonlinear_arith)
                    requires
                        i <= 128,
                        self.samples <= 0x1000_0000,
                ;
            }
            sum = sum + (self.samples as i128 - d as i128);
            i = i + 1;
        }
        proof {
            assert(sel@.take(i as int) =~= sel@);
        }
        sum
    }

    /// One selection at threshold `tau` over the ranking `order`.
    fn select(&self, order: &Vec<usize>, tau: i64) -> (r: Vec<usize>)
        requires
            self.wf(),
            -1_000_000 <= tau <= 1_000_000,
            forall|i: int| 0 <= i < order@.len() ==> #[trigger] order@[i] < self.bits@.len(),
        ensures
            r@ == attempt(self.responses(), self.samples as int, order@, tau as int),
            r@.len() <= NUM_PAIRS,
            forall|i: int| 0 <= i < r@.len() ==> #[trigger] r@[i] < self.bits@.len(),
    {
        let mut sel: Vec<usize> = Vec::new();
        if order.len() == 0 {
            return sel;
        }
        sel.push(order[0]);
        let ghost goal = attempt(self.responses(), self.samples as int, order@, tau as int);
        let mut j: usize = 1;
        while j < order.len() && sel.len() < NUM_PAIRS
            invariant
                self.wf(),
                -1_000_000 <= tau <= 1_000_000,
                forall|i: int| 0 <= i < order@.len() ==> #[trigger] order@[i] < self.bits@.len(),
                1 <= j <= order@.len(),
                1 <= sel@.len() <= NUM_PAIRS,
                forall|i: int| 0 <= i < sel@.len() ==> #[trigger] sel@[i] < self.bits@.len(),
                greedy(self.responses(), self.samples as int, order@, tau as int, sel@, j as int) == goal,
            decreases order@.len() - j,
        {
            let p = order[j];
            let a = self.agreement_with(p, &sel);
            proof {
                assert(0 <= (self.samples as int) * (sel@.len() as int) <= 0x1000_0000 * 128) by (nonlinear_arith)
                    requires
                        self.samples <= 0x1000_0000,
                        sel@.len() <= 128,
                ;
                assert(-1_000_000 * (0x1000_0000 * 128) <= (tau as int) * ((self.samples as int) * (sel@.len() as int)) <= 1_000_000 * (0x1000_0000 * 128)) by (nonlinear_arith)
                    requires
                        -1_000_000 <= tau <= 1_000_000,
                        0 <= (self.samples as int) * (sel@.len() as int) <= 0x1000_0000 * 128,
                ;
                assert((tau as int) * (self.samples as int) * (sel@.len() as int) == (tau as int) * ((self.samples as int) * (sel@.len() as int))) by (nonlinear_arith);
                assert(-1_000_000 * 0x1000_0000 <= (tau as int) * (self.samples as int) <= 1_000_000 * 0x1000_0000) by (nonlinear_arith)
                    requires
                        -1_000_000 <= tau <= 1_000_000,
                        0 <= self.samples <= 0x1000_0000,
                ;
            }
            if 1_000_000 * a < (tau as i128) * (self.samples as i128) * (sel.len() as i128) {
                sel.push(p);
            }
            j = j + 1;
        }
        sel
    }

    /// The imbalance of every pair's responses, in order.
    fn imbalance_scores(&self) -> (r: Vec<i128>)
        requires
            self.wf(),
        ensures
            r@ == self.imbalances(),
    {
        let mut out: Vec<i128> = Vec::new();
        let mut k: usize = 0;
        while k < self.bits.len()
            invariant
                self.wf(),
                k <= self.bits@.len(),
                out@ == self.bits@.take(k as int).map_values(|b: BitVec| imbalance(b@) as i128),
            decreases self.bits@.len() - k,
        {
            let w = self.bits[k].weight();
            proof {
                crate::bitvec::lemma_count_true_le(self.bits@[k as int]@);
            }
            let d = 2 * (w as i128) - self.samples as i128;
            let key = if d < 0 { -d } else { d };
            out.push(key);
            k = k + 1;
            proof {
                assert(out@ =~= self.bits@.take(k as int).map_values(|b: BitVec| imbalance(b@) as i128));
            }
        }
        proof {
            assert(self.bits@.take(k as int) =~= self.bits@);
        }
        out
    }

    /// The learnt base set: pairs ranked by how evenly they split the
    /// features (closest to half set first, ties in scan order), then
    /// `ROUNDS` greedy selections whose mean-correlation threshold starts at
    /// `START_THRESHOLD` millionths and moves by a step of `START_STEP` that is
    /// halved and reversed each time it overshoots. The last selection of
    /// `NUM_PAIRS` pairs is returned; `None` if no round reached that many.
    pub fn make_test_set(&self) -> (r: Option<TestSet>)
        requires
            self.wf(),
        ensures
            exists|order: Seq<usize>|
                {
                    &&& order.len() == self.bits@.len()
                    &&& #[trigger] sorted_positions(self.imbalances(), order, self.bits@.len() as int)
                    &&& match rounds_from(
                        self.responses(),
                        self.samples as int,
                        order,
                        START_THRESHOLD as int,
                        START_STEP as int,
                        ROUNDS as nat,
                        None,
                    ) {
                        Some(sel) => r.is_some() && r.unwrap().wf() && r.unwrap().set@ == sel.map_values(
                            |i: usize| self.pairs@[i as int],
                        ),
                        None => r.is_none(),
                    }
                },
    {
        let scores = self.imbalance_scores();
        let order = sort_order(&scores);
        let ghost goal = rounds_from(
            self.responses(),
            self.samples as int,
            order@,
            START_THRESHOLD as int,
            START_STEP as int,
            ROUNDS as nat,
            None,
        );
        let mut tau: i64 = START_THRESHOLD;
        let mut delta: i64 = START_STEP;
        let mut found: Option<Vec<usize>> = None;
        let mut round: usize = 0;
        while round < ROUNDS
            invariant
                self.wf(),
                order@.len() == self.bits@.len(),
                forall|i: int| 0 <= i < order@.len() ==> #[trigger] order@[i] < self.bits@.len(),
                round <= ROUNDS,
                -10_000 <= delta <= 10_000,
                START_THRESHOLD - 10_000 * round <= tau <= START_THRESHOLD + 10_000 * round,
                found.is_some() ==> found.unwrap()@.len() == NUM_PAIRS && forall|i: int|
                    0 <= i < found.unwrap()@.len() ==> #[trigger] found.unwrap()@[i] < self.bits@.len(),
                rounds_from(
                    self.responses(),
                    self.samples as int,
                    order@,
                    tau as int,
                    delta as int,
                    (ROUNDS - round) as nat,
                    match found {
                        Some(v) => Some(v@),
                        None => None,
                    },
                ) == goal,
            decreases ROUNDS - round,
        {
            let sel = self.select(&order, tau);
            let n = sel.len();
            if n == NUM_PAIRS {
                found = Some(sel);
            }
            if delta > 0 && n == NUM_PAIRS {
                delta = -(delta / 2);
            } else if delta < 0 && n < NUM_PAIRS {
                delta = (-delta) / 2;
            }
            tau = tau + delta;
            round = round + 1;
        }
        match found {
            Some(sel) => {
                let mut set: Vec<PairPoint> = Vec::new();
                let mut i: usize = 0;
                while i < sel.len()
                    invariant
                        self.wf(),
                        sel@.len() == NUM_PAIRS,
                        forall|q: int| 0 <= q < sel@.len() ==> #[trigger] sel@[q] < self.bits@.len(),
                        i <= sel@.len(),
                        set@ == sel@.take(i as int).map_values(|q: usize| self.pairs@[q as int]),
                    decreases sel@.len() - i,
                {
                    set.push(self.pairs[sel[i]]);
                    i = i + 1;
                    proof {
                        assert(set@ =~= sel@.take(i as int).map_values(|q: usize| self.pairs@[q as int]));
                    }
                }
                proof {
                    assert(sel@.take(i as int) =~= sel@);
                }
                let t = TestSet { set };
                assert(t.wf()) by {
                    assert forall|q: int| 0 <= q < t.set@.len() implies admissible(#[trigger] t.set@[q]) by {
                        assert(t.set@[q] == self.pairs@[sel@[q] as int]);
                    }
                }
                Some(t)
            },
            None => None,
        }
    }
}

} // verus!
