//! The multi-scale pipeline around the detectors: describing the candidates
//! of a level, keeping the lowest-scoring features across levels, and
//! matching descriptor lists through a Hamming index.
use vstd::prelude::*;
use crate::corners::{
    Corner, HARRIS_RADIUS, fast9_of, find_features, harris_spec, near_edge, orientation, orientation_spec,
};
use crate::gray::Gray;
use crate::lsh::{LshIndex, lemma_inserted_found};
use crate::rbrief::{RBrief, RADIUS, NUM_BINS, descriptor_of};

verus! {

/// Radius of the intensity-centroid window, the half side of the rBRIEF patch.
pub const ORIENTATION_RADIUS: u32 = 15;

/// A corner of one pyramid level with its orientation moments and, away from
/// the level's edges, its descriptor.
#[derive(Clone, Copy, Debug)]
pub struct Feature {
    pub corner: Corner,
    pub level: u32,
    /// `(m01, m10)`: the orientation is `atan2(m01, m10)`.
    pub moments: (i64, i64),
    pub descriptor: Option<u128>,
}

/// The FAST-9 corners of a level, Harris-scored, each with its orientation
/// moments at `ORIENTATION_RADIUS`.
pub fn oriented_corners(image: &Gray, threshold: u8) -> (r: Vec<(Corner, (i64, i64))>)
    requires
        image.wf(),
    ensures
        r@.len() == fast9_of(image.width, image.height, image.pixels@, threshold).len(),
        forall|k: int|
            0 <= k < r@.len() ==> {
                let c = #[trigger] fast9_of(image.width, image.height, image.pixels@, threshold)[k];
                let (cr, m) = r@[k];
                &&& cr.x == c.0 && cr.y == c.1
                &&& cr.score == harris_spec(*image, c.0 as int, c.1 as int, HARRIS_RADIUS as int)
                &&& (m.0 as int, m.1 as int) == orientation_spec(
                    *image,
                    c.0 as int,
                    c.1 as int,
                    ORIENTATION_RADIUS as int,
                )
            },
{
    let corners = find_features(image, threshold);
    let mut out: Vec<(Corner, (i64, i64))> = Vec::new();
    let mut k: usize = 0;
    while k < corners.len()
        invariant
            image.wf(),
            corners@.len() == fast9_of(image.width, image.height, image.pixels@, threshold).len(),
            forall|q: int|
                0 <= q < corners@.len() ==> {
                    let c = #[trigger] fast9_of(image.width, image.height, image.pixels@, threshold)[q];
                    corners@[q].x == c.0 && corners@[q].y == c.1 && corners@[q].score == harris_spec(
                        *image,
                        c.0 as int,
                        c.1 as int,
                        HARRIS_RADIUS as int,
                    )
                },
            k <= corners@.len(),
            out@.len() == k,
            forall|q: int|
                0 <= q < k ==> {
                    let c = #[trigger] fast9_of(image.width, image.height, image.pixels@, threshold)[q];
                    let (cr, m) = out@[q];
                    &&& cr.x == c.0 && cr.y == c.1
                    &&& cr.score == harris_spec(*image, c.0 as int, c.1 as int, HARRIS_RADIUS as int)
                    &&& (m.0 as int, m.1 as int) == orientation_spec(
                        *image,
                        c.0 as int,
                        c.1 as int,
                        ORIENTATION_RADIUS as int,
                    )
                },
        decreases corners@.len() - k,
    {
        let c = corners[k];
        let m = orientation(image, c.x, c.y, ORIENTATION_RADIUS);
        out.push((c, m));
        k = k + 1;
    }
    out
}

/// Each candidate of `level` with the descriptor of its angular bin
/// `bins[k] % NUM_BINS`, or none within `RADIUS` of the level's edges.
pub fn describe_candidates(
    image: &Gray,
    level: u32,
    candidates: &Vec<(Corner, (i64, i64))>,
    bins: &Vec<usize>,
    rbrief: &RBrief,
) -> (r: Vec<Feature>)
    requires
        image.wf(),
        rbrief.wf(),
        bins@.len() == candidates@.len(),
    ensures
        r@.len() == candidates@.len(),
        forall|k: int|
            0 <= k < r@.len() ==> {
                let (c, m) = #[trigger] candidates@[k];
                let f = r@[k];
                &&& f.corner == c && f.level == level && f.moments == m
                &&& f.descriptor.is_none() <==> near_edge(
                    image.width as int,
                    image.height as int,
                    c.x as int,
                    c.y as int,
                    RADIUS as int,
                )
                &&& f.descriptor.is_some() ==> descriptor_of(
                    f.descriptor.unwrap(),
                    *image,
                    c.x as int,
                    c.y as int,
                    rbrief.sets@[(bins@[k] % NUM_BINS) as int].set@,
                )
            },
{
    let mut out: Vec<Feature> = Vec::new();
    let mut k: usize = 0;
    while k < candidates.len()
        invariant
            image.wf(),
            rbrief.wf(),
            bins@.len() == candidates@.len(),
            k <= candidates@.len(),
            out@.len() == k,
            forall|q: int|
                0 <= q < k ==> {
                    let (c, m) = #[trigger] candidates@[q];
                    let f = out@[q];
                    &&& f.corner == c && f.level == level && f.moments == m
                    &&& f.descriptor.is_none() <==> near_edge(
                        image.width as int,
                        image.height as int,
                        c.x as int,
                        c.y as int,
                        RADIUS as int,
                    )
                    &&& f.descriptor.is_some() ==> descriptor_of(
                        f.descriptor.unwrap(),
                        *image,
                        c.x as int,
                        c.y as int,
                        rbrief.sets@[(bins@[q] % NUM_BINS) as int].set@,
                    )
                },
        decreases candidates@.len() - k,
    {
        let (c, m) = candidates[k];
        let d = rbrief.describe(image, c.x, c.y, bins[k]);
        out.push(Feature { corner: c, level, moments: m, descriptor: d });
        k = k + 1;
    }
    out
}

/// The Harris scores of `fs`, in order.
pub open spec fn scores_of(fs: Seq<Feature>) -> Seq<i128> {
    fs.map_values(|f: Feature| f.corner.score)
}

/// Ordering key of position `i`: by score, then by position.
pub open spec fn key_lt(scores: Seq<i128>, i: int, j: int) -> bool {
    scores[i] < scores[j] || (scores[i] == scores[j] && i < j)
}

/// `order` lists positions of `scores`, each below `n` and at most once,
/// ascending by score and, among equal scores, by position.
pub open spec fn sorted_positions(scores: Seq<i128>, order: Seq<usize>, n: int) -> bool {
    &&& forall|k: int| 0 <= k < order.len() ==> #[trigger] order[k] < n
    &&& forall|a: int, b: int| 0 <= a < b < order.len() ==> key_lt(scores, #[trigger] order[a] as int, #[trigger] order[b] as int)
}

/// The positions of `scores` in ascending order of score, equal scores in
/// their original order.
pub fn sort_order(scores: &Vec<i128>) -> (order: Vec<usize>)
    ensures
        order@.len() == scores@.len(),
        sorted_positions(scores@, order@, scores@.len() as int),
{
    let mut order: Vec<usize> = Vec::new();
    let mut i: usize = 0;
    while i < scores.len()
        invariant
            i <= scores@.len(),
            order@.len() == i,
            sorted_positions(scores@, order@, i as int),
        decreases scores@.len() - i,
    {
        let s = scores[i];
        let mut p: usize = order.len();
        while p > 0 && scores[order[p - 1]] > s
            invariant
                p <= order@.len(),
                order@.len() == i,
                i < scores@.len(),
                s == scores@[i as int],
                sorted_positions(scores@, order@, i as int),
                forall|q: int| p <= q < order@.len() ==> scores@[#[trigger] order@[q] as int] > s,
            decreases p,
        {
            p = p - 1;
        }
        let ghost before = order@;
        proof {
            assert forall|q: int| 0 <= q < p implies key_lt(scores@, #[trigger] before[q] as int, i as int) by {
                if p > 0 && q < p - 1 {
                    assert(key_lt(scores@, before[q] as int, before[p - 1] as int));
                }
            }
        }
        order.insert(p, i);
        proof {
            assert forall|a: int, b: int| 0 <= a < b < order@.len() implies key_lt(
                scores@,
                #[trigger] order@[a] as int,
                #[trigger] order@[b] as int,
            ) by {
                if b < p {
                    assert(order@[a] == before[a] && order@[b] == before[b]);
                } else if b == p {
                    assert(order@[a] == before[a]);
                } else if a == p {
                    assert(order@[b] == before[b - 1]);
                } else if a < p {
                    assert(order@[a] == before[a] && order@[b] == before[b - 1]);
                } else {
                    assert(order@[a] == before[a - 1] && order@[b] == before[b - 1]);
                }
            }
        }
        i = i + 1;
    }
    order
}

/// The at most `num_features` features of lowest Harris score, ascending by
/// score and, among equal scores, in their original order.
pub fn select_features(features: &Vec<Feature>, num_features: usize) -> (r: Vec<Feature>)
    ensures
        r@.len() == if features@.len() < num_features { features@.len() as int } else { num_features as int },
        exists|order: Seq<usize>|
            {
                &&& #[trigger] sorted_positions(
                    scores_of(features@),
                    order,
                    features@.len() as int,
                )
                &&& order.len() == features@.len()
                &&& forall|k: int| 0 <= k < r@.len() ==> r@[k] == features@[order[k] as int]
            },
{
    let mut scores: Vec<i128> = Vec::new();
    let mut k: usize = 0;
    while k < features.len()
        invariant
            k <= features@.len(),
            scores@ == scores_of(features@.take(k as int)),
        decreases features@.len() - k,
    {
        scores.push(features[k].corner.score);
        k = k + 1;
        proof {
            assert(scores@ =~= scores_of(features@.take(k as int)));
        }
    }
    proof {
        assert(features@.take(k as int) =~= features@);
    }
    let order = sort_order(&scores);
    let n = if features.len() < num_features { features.len() } else { num_features };
    let mut out: Vec<Feature> = Vec::new();
    let mut j: usize = 0;
    while j < n
        invariant
            n <= features@.len(),
            n <= order@.len(),
            order@.len() == features@.len(),
            forall|q: int| 0 <= q < order@.len() ==> #[trigger] order@[q] < features@.len(),
            j <= n,
            out@.len() == j,
            forall|q: int| 0 <= q < j ==> out@[q] == features@[#[trigger] order@[q] as int],
        decreases n - j,
    {
        out.push(features[order[j]]);
        j = j + 1;
    }
    proof {
        assert(sorted_positions(scores_of(features@), order@, features@.len() as int));
    }
    out
}

/// The `(descriptor, position)` entries of the described features of `fs`,
/// in order.
pub open spec fn described(fs: Seq<Feature>) -> Seq<(u128, usize)>
    decreases fs.len(),
{
    if fs.len() == 0 {
        Seq::empty()
    } else {
        let rest = described(fs.drop_last());
        match fs.last().descriptor {
            Some(d) => rest.push((d, (fs.len() - 1) as usize)),
            None => rest,
        }
    }
}

/// Inserts every described feature of `features`, with its position as the
/// value.
pub fn index_features(index: &mut LshIndex, features: &Vec<Feature>)
    requires
        old(index).wf(),
    ensures
        final(index).wf(),
        final(index).k == old(index).k,
        final(index).tables@ == old(index).tables@,
        final(index).entries@ == old(index).entries@ + described(features@),
{
    let ghost start = index.entries@;
    let mut k: usize = 0;
    while k < features.len()
        invariant
            index.wf(),
            index.k == old(index).k,
            index.tables@ == old(index).tables@,
            start == old(index).entries@,
            k <= features@.len(),
            index.entries@ == start + described(features@.take(k as int)),
        decreases features@.len() - k,
    {
        proof {
            assert(features@.take(k + 1).drop_last() =~= features@.take(k as int));
        }
        match features[k].descriptor {
            Some(d) => {
                index.insert(d, k);
                proof {
                    assert(start + described(features@.take(k + 1)) =~= (start + described(
                        features@.take(k as int),
                    )).push((d, k)));
                }
            },
            None => {},
        }
        k = k + 1;
    }
    proof {
        assert(features@.take(k as int) =~= features@);
    }
}

/// For each feature of `queries`, the first probed entry nearest to its
/// descriptor within `max_distance`; none for features without a descriptor.
pub fn find_matches(index: &LshIndex, queries: &Vec<Feature>, max_distance: u32) -> (r: Vec<
    Option<(u32, usize)>,
>)
    requires
        index.wf(),
    ensures
        r@.len() == queries@.len(),
        forall|k: int|
            0 <= k < r@.len() ==> #[trigger] r@[k] == match queries@[k].descriptor {
                Some(d) => index.get_spec(d, max_distance),
                None => None,
            },
{
    let mut out: Vec<Option<(u32, usize)>> = Vec::new();
    let mut k: usize = 0;
    while k < queries.len()
        invariant
            index.wf(),
            k <= queries@.len(),
            out@.len() == k,
            forall|q: int|
                0 <= q < k ==> #[trigger] out@[q] == match queries@[q].descriptor {
                    Some(d) => index.get_spec(d, max_distance),
                    None => None,
                },
        decreases queries@.len() - k,
    {
        let m = match queries[k].descriptor {
            Some(d) => index.get(d, max_distance),
            None => None,
        };
        out.push(m);
        k = k + 1;
    }
    out
}

proof fn lemma_described_has(fs: Seq<Feature>, k: int)
    requires
        0 <= k < fs.len(),
        fs[k].descriptor.is_some(),
    ensures
        exists|i: int| 0 <= i < described(fs).len() && #[trigger] described(fs)[i] == (fs[k].descriptor.unwrap(), k as usize),
    decreases fs.len(),
{
    let rest = described(fs.drop_last());
    if k < fs.len() - 1 {
        lemma_described_has(fs.drop_last(), k);
        let i = choose|i: int| 0 <= i < rest.len() && #[trigger] rest[i] == (fs.drop_last()[k].descriptor.unwrap(), k as usize);
        assert(described(fs)[i] == rest[i]);
    } else {
        assert(described(fs)[rest.len() as int] == (fs[k].descriptor.unwrap(), k as usize));
    }
}

/// Matching a feature list against an index holding that same list finds,
/// for every described feature, a match at distance 0.
pub proof fn lemma_self_match(index: LshIndex, features: Seq<Feature>, k: int, max_distance: u32)
    requires
        index.wf(),
        index.tables@.len() > 0,
        index.entries@ == described(features),
        0 <= k < features.len(),
        features[k].descriptor.is_some(),
    ensures
        index.get_spec(features[k].descriptor.unwrap(), max_distance).is_some(),
        index.get_spec(features[k].descriptor.unwrap(), max_distance).unwrap().0 == 0,
{
    lemma_described_has(features, k);
    let i = choose|i: int| 0 <= i < described(features).len() && #[trigger] described(features)[i] == (features[k].descriptor.unwrap(), k as usize);
    lemma_inserted_found(index, i, max_distance);
}

} // verus!
