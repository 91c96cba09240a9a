use image::{imageops, ImageBuffer, Luma};
use orb_features::corners::Corner;
use orb_features::features::{find_matches, index_features, select_features, sort_order, Feature};
use orb_features::gray::Gray;
use orb_features::lsh::{hamming_distance, LshIndex};

fn feature(score: i128, descriptor: Option<u128>) -> Feature {
    Feature { corner: Corner { x: 0, y: 0, score }, level: 0, moments: (0, 0), descriptor }
}

#[test]
fn hamming_distance_counts_differing_bits() {
    assert_eq!(hamming_distance(0, 0), 0);
    assert_eq!(hamming_distance(0b1011, 0b0110), 3);
    assert_eq!(hamming_distance(u128::MAX, 0), 128);
}

#[test]
fn inserted_descriptor_round_trips() {
    let mut index = LshIndex::new(4, 10).unwrap();
    let d = 0x0123_4567_89ab_cdef_0011_2233_4455_6677u128;
    index.insert(d, 42);
    assert_eq!(index.get(d, 0), Some((0, 42)));
}

#[test]
fn random_tables_have_k_distinct_positions() {
    let index = LshIndex::new(6, 3).unwrap();
    assert_eq!(index.tables.len(), 3);
    for t in index.tables.iter() {
        assert_eq!(t.len(), 6);
        assert!(t.iter().all(|&p| p < 128));
        let mut s = t.clone();
        s.sort();
        s.dedup();
        assert_eq!(s.len(), 6);
    }
    assert!(LshIndex::new(129, 1).is_none());
    let wide = LshIndex::new(40, 2000).unwrap();
    assert_eq!(wide.tables.len(), 2000);
}

#[test]
fn exhaustive_index_returns_the_nearest_entry() {
    let mut index = LshIndex::new(0, 1).unwrap();
    index.insert(0b1111, 0);
    index.insert(0b0111, 1);
    index.insert(0b0011, 2);
    index.insert(0b0111, 3);
    assert_eq!(index.get(0b0110, 128), Some((1, 1)));
    assert_eq!(index.get(0b0001, 128), Some((1, 2)));
    assert_eq!(index.get(0b0001, 0), None);
}

#[test]
fn projection_buckets_decide_the_candidates() {
    // One table on bit 0: entries whose bit 0 differs from the query's are
    // never compared.
    let mut index = LshIndex::from_positions(1, vec![vec![0u8]]).unwrap();
    index.insert(0b10, 5);
    index.insert(0b01, 6);
    assert_eq!(index.get(0b11, 128), Some((1, 6)));
    assert_eq!(index.get(0b00, 128), Some((1, 5)));
    assert!(LshIndex::from_positions(1, vec![vec![128u8]]).is_none());
    assert!(LshIndex::from_positions(2, vec![vec![1u8]]).is_none());
    assert!(LshIndex::from_positions(2, vec![vec![3u8, 3u8]]).is_none());
}

#[test]
fn matching_a_list_against_itself_finds_exact_matches() {
    let features = vec![
        feature(3, Some(0xdead_beef)),
        feature(1, None),
        feature(2, Some(0xfeed_f00d_0000_0000_0000_0000_0000_0001)),
    ];
    let mut index = LshIndex::new(4, 10).unwrap();
    index_features(&mut index, &features);
    let matches = find_matches(&index, &features, 15);
    assert_eq!(matches.len(), 3);
    assert_eq!(matches[0], Some((0, 0)));
    assert_eq!(matches[1], None);
    assert_eq!(matches[2], Some((0, 2)));
}

#[test]
fn selection_keeps_the_lowest_scores_in_stable_order() {
    let order = sort_order(&vec![5, -1, 5, 0, -1]);
    assert_eq!(order, vec![1, 4, 3, 0, 2]);
    let fs = vec![feature(5, None), feature(-1, Some(1)), feature(5, Some(2)), feature(0, None)];
    let kept = select_features(&fs, 3);
    let scores: Vec<i128> = kept.iter().map(|f| f.corner.score).collect();
    assert_eq!(scores, vec![-1, 0, 5]);
    assert_eq!(kept[2].descriptor, None);
    assert_eq!(select_features(&fs, 10).len(), 4);
}

#[test]
fn oriented_corners_carry_moments() {
    let mut img = ImageBuffer::from_pixel(64, 64, Luma([0u8]));
    let square = ImageBuffer::from_pixel(20, 20, Luma([255u8]));
    imageops::replace(&mut img, &square, 22, 22);
    let g = Gray::from_raw(64, 64, img.as_raw().clone()).unwrap();
    let found = orb_features::features::oriented_corners(&g, 32);
    assert!(!found.is_empty());
    for (c, m) in found.iter() {
        assert_eq!(*m, orb_features::corners::orientation(&g, c.x, c.y, 15));
    }
}

#[test]
fn wide_projections_still_round_trip() {
    // 128 bits per projection: every distinct descriptor has its own bucket.
    let all: Vec<u8> = (0..128u8).collect();
    let mut index = LshIndex::from_positions(128, vec![all.clone(), all]).unwrap();
    index.insert(u128::MAX, 1);
    index.insert(7, 2);
    assert_eq!(index.get(u128::MAX, 0), Some((0, 1)));
    assert_eq!(index.get(7, 128), Some((0, 2)));
    // 6 differs from 7 in one bit, but lands in another bucket of every table.
    assert_eq!(index.get(6, 128), None);
}
