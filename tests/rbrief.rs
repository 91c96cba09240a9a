use image::{imageops, GrayImage, ImageBuffer, Luma};
use orb_features::gray::Gray;
use orb_features::integral::integral_image;
use orb_features::rbrief::{sample, PairPoint, Point, RBrief, TestSet, TestSetError, MAX, RADIUS, WINDOW};

fn to_gray(img: &GrayImage) -> Gray {
    Gray::from_raw(img.width(), img.height(), img.as_raw().clone()).unwrap()
}

fn bank(base: &TestSet) -> Vec<TestSet> {
    (0..30).map(|_| TestSet { set: base.set.clone() }).collect()
}

#[test]
fn test_rbrief_test_set() {
    let t = TestSet::new();
    assert_eq!(t.set.len(), 128);
    for PairPoint(p1, p2) in t.set.iter() {
        assert!(p1.x <= MAX);
        assert!(p1.y <= MAX);
        assert!(p2.x <= MAX);
        assert!(p2.y <= MAX);
        assert!(p1.x >= -MAX);
        assert!(p1.y >= -MAX);
        assert!(p2.x >= -MAX);
        assert!(p2.y >= -MAX);
    }
}

#[test]
fn seeded_test_sets_repeat() {
    let a = TestSet::from_seed(7);
    let b = TestSet::from_seed(7);
    assert_eq!(a.set, b.set);
    assert!(a.set.iter().all(|p| p.0.x.abs() <= MAX && p.1.y.abs() <= MAX));
}

#[test]
fn test_rbrief_sample() {
    let r = RADIUS;
    let image = to_gray(&ImageBuffer::from_pixel(r * 2, r * 2, Luma([1u8])));
    let integral = integral_image(&image);
    assert_eq!(sample(&integral, &Point { x: r as i32, y: r as i32 }, &Point { x: 0, y: 0 }), 25);
}

#[test]
fn sample_sums_the_five_by_five_box() {
    let mut pixels = Vec::new();
    for y in 0..10u32 {
        for x in 0..10u32 {
            pixels.push((x + 10 * y) as u8);
        }
    }
    let image = Gray::from_raw(10, 10, pixels).unwrap();
    let integral = integral_image(&image);
    // Box x in 1..=5, y in 2..=6: sum of (x + 10 y) = 5 * 15 + 10 * 5 * 20.
    assert_eq!(sample(&integral, &Point { x: 1, y: 2 }, &Point { x: 2, y: 2 }), 75 + 1000);
}

#[test]
fn test_rbrief_test() {
    let r = RADIUS;
    let mut white = ImageBuffer::from_pixel(r * 4, r * 2, Luma([255u8]));
    let black = ImageBuffer::from_pixel(r * 2, r * 2, Luma([0u8]));
    imageops::replace(&mut white, &black, 0, 0);
    let integral = integral_image(&to_gray(&white));
    let pair = PairPoint(
        Point { x: r as i32, y: r as i32 },
        Point { x: 3 * r as i32, y: r as i32 });
    assert_eq!(orb_features::rbrief::test(&integral, &Point { x: 0, y: 0 }, &pair), false);
    let pair = PairPoint(pair.1, pair.0);
    assert_eq!(orb_features::rbrief::test(&integral, &Point { x: 0, y: 0 }, &pair), true);
}

#[test]
fn test_rbrief_all_pairs() {
    let mut i = PairPoint::all_pairs();
    assert_eq!(i.next(), Some(PairPoint::from(-MAX, -MAX, -MAX + WINDOW, -MAX)));
    assert_eq!(i.next(), Some(PairPoint::from(-MAX, -MAX, -MAX + WINDOW + 1, -MAX)));
    let mut i = PairPoint::from(MAX, 12, MAX, MAX).iter();
    let _p = i.next();
    assert_eq!(i.next(), Some(PairPoint::from(-MAX, MAX, -MAX + WINDOW, MAX)));
    let mut i = PairPoint::from(MAX - WINDOW, MAX, MAX, MAX).iter();
    let _p = i.next();
    assert_eq!(i.next(), None);
    assert_eq!(PairPoint::all_pairs().count(), 240856);
}

#[test]
fn pair_predicates() {
    let p = PairPoint::from(0, 0, 4, 4);
    assert!(p.overlaps());
    assert!(!PairPoint::from(0, 0, 5, 0).overlaps());
    assert!(p.valid());
    assert!(!PairPoint::from(0, 14, 0, 0).valid());
}

#[test]
fn coordinates_round_trip() {
    let t = TestSet::from_seed(3);
    let coords = t.to_coords();
    assert_eq!(coords.len(), 512);
    let back = TestSet::from_coords(&coords).unwrap();
    assert_eq!(back.set, t.set);
}

#[test]
fn malformed_coordinates_are_rejected() {
    assert!(matches!(TestSet::from_coords(&vec![0; 511]), Err(TestSetError::InvalidFormat)));
    let mut v = TestSet::from_seed(5).to_coords();
    assert!(TestSet::from_coords(&v).is_ok());
    let keep = v[100];
    v[100] = 14;
    assert!(matches!(TestSet::from_coords(&v), Err(TestSetError::InvalidFormat)));
    v[100] = keep;
    // Pair 3 made to overlap: both points at the origin.
    for k in 12..16 {
        v[k] = 0;
    }
    assert!(matches!(TestSet::from_coords(&v), Err(TestSetError::InvalidFormat)));
}

#[test]
fn random_sets_never_overlap() {
    for _ in 0..20 {
        let t = TestSet::new();
        assert_eq!(t.set.len(), 128);
        assert!(t.set.iter().all(|p| p.valid() && !p.overlaps()));
        assert!(t.is_valid());
    }
}

#[test]
fn draws_keep_the_first_admissible_quadruples() {
    // Overlapping, then admissible, then out of range, then admissible.
    let mut v = vec![0, 0, 1, 1, 0, 0, 5, 0, 14, 0, 0, 0, -13, -13, 13, 13];
    assert!(TestSet::from_draws(&v).is_none());
    for _ in 0..126 {
        v.extend_from_slice(&[0, 0, 0, 7]);
    }
    let t = TestSet::from_draws(&v).unwrap();
    assert_eq!(t.set[0], PairPoint::from(0, 0, 5, 0));
    assert_eq!(t.set[1], PairPoint::from(-13, -13, 13, 13));
    assert_eq!(t.set[127], PairPoint::from(0, 0, 0, 7));
}

#[test]
fn describe_at_the_origin_gives_none() {
    let image = to_gray(&ImageBuffer::from_pixel(64, 64, Luma([9u8])));
    let rb = RBrief::new(bank(&TestSet::from_seed(1))).unwrap();
    assert_eq!(rb.describe(&image, 0, 0, 0), None);
    assert_eq!(rb.describe(&image, 41, 30, 0), None);
    assert!(rb.describe(&image, 40, 40, 0).is_some());
}

#[test]
fn describe_sets_the_bits_of_brighter_first_boxes() {
    // Bright right half: a pair whose first point is on the right is set.
    let mut img = ImageBuffer::from_pixel(60, 60, Luma([0u8]));
    let bright = ImageBuffer::from_pixel(30, 60, Luma([200u8]));
    imageops::replace(&mut img, &bright, 30, 0);
    let image = to_gray(&img);
    let mut set = Vec::new();
    for i in 0..128 {
        if i % 2 == 0 {
            set.push(PairPoint::from(10, 0, -10, 0));
        } else {
            set.push(PairPoint::from(-10, 0, 10, 0));
        }
    }
    let rb = RBrief::new(bank(&TestSet { set })).unwrap();
    let d = rb.describe(&image, 30, 30, 31).unwrap();
    assert_eq!(d, 0x5555_5555_5555_5555_5555_5555_5555_5555u128);
}

#[test]
fn rbrief_bank_is_checked() {
    let base = TestSet::from_seed(2);
    assert!(RBrief::new(bank(&base)[..29].iter().map(|t| TestSet { set: t.set.clone() }).collect()).is_none());
    let mut sets = bank(&base);
    sets[5].set[0] = PairPoint::from(22, 0, 0, 0);
    assert!(RBrief::new(sets).is_none());
    // Bin 0 is the base set: within MAX and without overlaps.
    let mut sets = bank(&base);
    sets[0].set[0] = PairPoint::from(20, 0, 0, 0);
    assert!(RBrief::new(sets).is_none());
    let mut sets = bank(&base);
    sets[0].set[0] = PairPoint::from(1, 0, 0, 0);
    assert!(RBrief::new(sets).is_none());
    let mut sets = bank(&base);
    sets[7].set[0] = PairPoint::from(20, 0, 0, 0);
    assert!(RBrief::new(sets).is_some());
}
