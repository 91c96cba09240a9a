use orb_features::gray::{get_safe_from_image, get_safe_from_vec, Gray};
use orb_features::pyramid::{downsample, Pyramid};

fn patterned(w: u32, h: u32) -> Gray {
    let mut pixels = Vec::new();
    for y in 0..h {
        for x in 0..w {
            pixels.push(((x * 37 + y * 11) % 256) as u8);
        }
    }
    Gray::from_raw(w, h, pixels).unwrap()
}

#[test]
fn test_pyramid() {
    let image = Gray::new(8, 8, 128);
    let pyramid = Pyramid::new(&image, 4);
    assert_eq!(pyramid.images.len(), 4);
    let last = &pyramid.images[3];
    assert_eq!((last.width, last.height), (1, 1));
    assert_eq!(last.get_pixel(0, 0), 128);
}

#[test]
fn pyramid_of_uniform_image_is_uniform() {
    let image = Gray::new(37, 23, 77);
    let pyramid = Pyramid::new(&image, 6);
    assert_eq!(pyramid.images.len(), 5);
    for level in pyramid.images.iter() {
        assert!(level.pixels.iter().all(|&p| p == 77));
    }
}

#[test]
fn pyramid_is_deterministic() {
    let image = patterned(40, 30);
    let a = Pyramid::new(&image, 4);
    let b = Pyramid::new(&image, 4);
    assert_eq!(a.images.len(), b.images.len());
    for (x, y) in a.images.iter().zip(b.images.iter()) {
        assert_eq!((x.width, x.height), (y.width, y.height));
        assert_eq!(x.pixels, y.pixels);
    }
}

#[test]
fn pyramid_stops_at_requested_levels() {
    let image = Gray::new(64, 64, 3);
    let pyramid = Pyramid::new(&image, 2);
    assert_eq!(pyramid.images.len(), 3);
    assert_eq!(pyramid.images[2].width, 16);
    let none = Pyramid::new(&image, 0);
    assert_eq!(none.images.len(), 1);
}

#[test]
fn pyramid_levels_halve_with_truncation() {
    let image = Gray::new(13, 9, 0);
    let pyramid = Pyramid::new(&image, 10);
    let dims: Vec<(u32, u32)> = pyramid.images.iter().map(|g| (g.width, g.height)).collect();
    assert_eq!(dims, vec![(13, 9), (6, 4), (3, 2), (1, 1)]);
}

#[test]
fn downsample_applies_binomial_kernel_with_clamping() {
    // One bright column at x = 2 of a 4x4 image.
    let mut pixels = vec![0u8; 16];
    for y in 0..4 {
        pixels[y * 4 + 2] = 160;
    }
    let image = Gray::from_raw(4, 4, pixels).unwrap();
    let dst = downsample(&image);
    assert_eq!((dst.width, dst.height), (2, 2));
    // Vertical pass keeps 160 in column 2. Horizontal pass at x = 0 reads
    // columns 0,0,0,1,2 (clamped): 160 / 16 = 10; at x = 1: columns 0..4 with
    // 2 at the centre weight 6 and column 3 clamped at the right: 6*160/16 = 60.
    assert_eq!(dst.pixels, vec![10, 60, 10, 60]);
}

#[test]
fn safe_reads_clamp_to_the_nearest_sample() {
    let image = patterned(5, 4);
    assert_eq!(get_safe_from_image(&image, -3, -9), image.get_pixel(0, 0));
    assert_eq!(get_safe_from_image(&image, 10, 2), image.get_pixel(4, 2));
    assert_eq!(get_safe_from_image(&image, 1, 7), image.get_pixel(1, 3));
    let v = vec![4u8, 5, 6];
    assert_eq!(get_safe_from_vec(&v, -1), 4);
    assert_eq!(get_safe_from_vec(&v, 1), 5);
    assert_eq!(get_safe_from_vec(&v, 3), 6);
}

#[test]
fn from_raw_checks_the_sample_count() {
    assert!(Gray::from_raw(3, 3, vec![0u8; 8]).is_none());
    assert!(Gray::from_raw(3, 3, vec![0u8; 9]).is_some());
}
