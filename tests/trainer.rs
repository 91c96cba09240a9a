use orb_features::gray::Gray;
use orb_features::trainer::Trainer;

fn small_trainer(n: usize) -> Trainer {
    let mut it = orb_features::rbrief::PairPoint::all_pairs();
    let mut pairs = Vec::new();
    let mut bits = Vec::new();
    while pairs.len() < n {
        pairs.push(it.next().unwrap());
        bits.push(orb_features::bitvec::BitVec::new());
    }
    Trainer { pairs, bits, samples: 0 }
}

#[test]
fn trainer_holds_every_admissible_pair() {
    let t = Trainer::new();
    assert_eq!(t.pairs.len(), 240856);
    assert_eq!(t.bits.len(), 240856);
    assert_eq!(t.samples, 0);
    assert_eq!(t.pairs[0], orb_features::rbrief::PairPoint::from(-13, -13, -8, -13));
}

#[test]
fn trainer_tests_every_pair_on_each_feature() {
    let mut t = small_trainer(500);
    let mut pixels = Vec::new();
    for y in 0..60u32 {
        for x in 0..60u32 {
            pixels.push(((x * 7 + y * 3) % 251) as u8);
        }
    }
    let g = Gray::from_raw(60, 60, pixels).unwrap();
    let rotated = t.pairs.clone();
    assert!(!t.add_feature(&g, 10, 30, &rotated));
    assert!(!t.add_feature(&g, 30, 30, &rotated[..10].to_vec()));
    assert!(t.add_feature(&g, 30, 30, &rotated));
    assert_eq!(t.samples, 1);
    assert!(t.bits.iter().all(|b| b.len() == 1));
    // On a flat patch no box is brighter than another: no bit is set.
    let flat = Gray::from_raw(60, 60, vec![0u8; 3600]).unwrap();
    let mut f = small_trainer(500);
    assert!(f.add_feature(&flat, 30, 30, &rotated));
    assert!(f.bits.iter().all(|b| b.len() == 1 && b.weight() == 0));
}

#[test]
fn selection_returns_full_valid_sets_or_none() {
    // A trainer over the first pairs of the enumeration keeps the greedy
    // rounds short.
    let mut t = small_trainer(2000);
    let rotated = t.pairs.clone();
    for seed in 0..16u32 {
        let mut pixels = Vec::new();
        for y in 0..60u32 {
            for x in 0..60u32 {
                let v = (x * (7 + seed) + y * (3 + 2 * seed) + x * y * seed) % 251;
                pixels.push(v as u8);
            }
        }
        let g = Gray::from_raw(60, 60, pixels).unwrap();
        assert!(t.add_feature(&g, 30, 30, &rotated));
    }
    assert_eq!(t.samples, 16);
    match t.make_test_set() {
        Some(set) => {
            assert_eq!(set.set.len(), 128);
            assert!(set.set.iter().all(|p| p.valid() && !p.overlaps()));
            assert!(set.set.iter().all(|p| t.pairs.contains(p)));
        }
        None => {}
    }
}
