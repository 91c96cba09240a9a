use orb_features::bitvec::BitVec;

fn mean(b: &BitVec) -> f32 {
    b.weight() as f32 / b.len() as f32
}

fn correlation(a: &BitVec, b: &BitVec) -> f32 {
    a.distance(b) as f32 / a.len() as f32
}

#[test]
fn test_bit_vec() {
    let mut b = BitVec::new();
    b.push(true);
    assert_eq!(b.len(), 1);
    assert_eq!(mean(&b), 1.0);
    b.push(false);
    assert_eq!(mean(&b), 0.5);
    let mut b = BitVec::new();
    for _i in 0..8 {
        b.push(true);
        b.push(false);
    }
    assert_eq!(b.len(), 16);
    assert_eq!(mean(&b), 0.5);
    let mut c = BitVec::new();
    for _i in 0..8 {
        c.push(true);
        c.push(true);
    }
    assert_eq!(correlation(&b, &c), 0.5);
}

#[test]
fn weight_and_distance_count_bits() {
    let mut a = BitVec::new();
    let mut b = BitVec::new();
    for i in 0..21 {
        a.push(i % 3 == 0);
        b.push(i % 7 == 0);
    }
    assert_eq!(a.len(), 21);
    assert_eq!(a.weight(), 7);
    assert_eq!(b.weight(), 3);
    // Both set at 0 and 21-multiples: only i = 0; differ at 7 + 3 - 2 positions.
    assert_eq!(a.distance(&b), 8);
    assert_eq!(BitVec::new().len(), 0);
    assert_eq!(BitVec::new().weight(), 0);
}
