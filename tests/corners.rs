use image::{imageops, GrayImage, ImageBuffer, Luma};
use imageproc::geometric_transformations;
use orb_features::corners::{circular_window, find_features, harris_score, orientation};
use orb_features::gray::Gray;

fn to_gray(img: &GrayImage) -> Gray {
    Gray::from_raw(img.width(), img.height(), img.as_raw().clone()).unwrap()
}

fn angle(m: (i64, i64)) -> f32 {
    (m.0 as f32).atan2(m.1 as f32)
}

#[test]
fn test_harris_flat() {
    let image = to_gray(&ImageBuffer::from_pixel(8, 8, Luma([128u8])));
    let score = harris_score(&image, 4, 4, 3);
    assert_eq!(score, 0);
}

#[test]
fn test_harris_bounds() {
    let image = to_gray(&ImageBuffer::from_pixel(8, 8, Luma([128u8])));
    let score = harris_score(&image, 2, 2, 3);
    assert_eq!(score, 0);
    let score = harris_score(&image, 7, 9, 3);
    assert_eq!(score, 0);
}

#[test]
fn test_harris_constant_gradient() {
    let mut image = GrayImage::new(20, 20);
    imageops::horizontal_gradient(&mut image, &Luma([0]), &Luma([255]));
    let score = harris_score(&to_gray(&image), 10, 10, 3);
    assert!(score <= 0);
    // invert the gradient
    imageops::horizontal_gradient(&mut image, &Luma([255]), &Luma([0]));
    let score = harris_score(&to_gray(&image), 10, 10, 3);
    assert!(score <= 0);
    // rotate by 90
    image = imageops::rotate90(&image);
    let score = harris_score(&to_gray(&image), 10, 10, 3);
    assert!(score <= 0);
}

#[test]
fn test_harris_corner() {
    let mut white = ImageBuffer::from_pixel(8, 8, Luma([255u8]));
    let black = ImageBuffer::from_pixel(4, 4, Luma([0u8]));
    imageops::replace(&mut white, &black, 0, 0);
    let score = harris_score(&to_gray(&white), 4, 4, 3);
    assert!(score > 0);
    let white90 = imageops::rotate90(&white);
    let score = harris_score(&to_gray(&white90), 4, 4, 3);
    assert!(score > 0);
}

#[test]
fn test_harris_corner_invert() {
    let mut black = ImageBuffer::from_pixel(8, 8, Luma([0u8]));
    let white = ImageBuffer::from_pixel(4, 4, Luma([255u8]));
    imageops::replace(&mut black, &white, 0, 0);
    let score = harris_score(&to_gray(&black), 4, 4, 3);
    assert!(score > 0);
    let black270 = imageops::rotate270(&black);
    let score = harris_score(&to_gray(&black270), 4, 4, 3);
    assert!(score > 0);
}

#[test]
fn harris_is_zero_within_radius_of_every_edge() {
    let mut image = GrayImage::new(12, 12);
    imageops::horizontal_gradient(&mut image, &Luma([0]), &Luma([255]));
    let g = to_gray(&image);
    // x + r == width - 1 is the last centre whose square fits.
    assert_eq!(harris_score(&g, 9, 6, 3), 0);
    assert_eq!(harris_score(&g, 6, 9, 3), 0);
    assert_eq!(harris_score(&g, 0, 6, 3), 0);
}

#[test]
fn harris_of_a_single_step_has_the_exact_scaled_value() {
    // Left half 0, right half 100 on a 7x7 image; r = 1, window of 9 offsets
    // (diameter 3), patch columns 2..5 around x = 3.
    let mut pixels = vec![0u8; 49];
    for y in 0..7 {
        for x in 4..7 {
            pixels[y * 7 + x] = 100;
        }
    }
    let g = Gray::from_raw(7, 7, pixels).unwrap();
    // The 3x3 patch (columns 2, 3, 4) reads 0, 0, 100 on every row, so the
    // vertical Sobel is 0 and the horizontal one is 0, 400, 400 by column
    // (the right column reads itself past the patch edge). The window of
    // diameter 3 holds all nine offsets (4 * 2 <= 9), so the sum of Ix^2 is
    // 6 * 160000 and the score is -6 * trace^2.
    let a: i128 = 960000;
    assert_eq!(harris_score(&g, 3, 3, 1), -6 * a * a);
}

#[test]
fn test_circular_window() {
    let w0 = [(0, 0)];
    assert_eq!(&w0[..], &circular_window(0)[..]);
    let w25 = [(-1, -2), (0, -2), (1, -2),
        (-2, -1), (-1, -1), (0, -1), (1, -1), (2, -1),
        (-2, 0), (-1, 0), (0, 0), (1, 0), (2, 0),
        (-2, 1), (-1, 1), (0, 1), (1, 1), (2, 1),
        (-1, 2), (0, 2), (1, 2)];
    assert_eq!(&w25[..], &circular_window(5)[..]);
}

#[test]
fn circular_window_of_radius_three_and_a_half() {
    let w = circular_window(7);
    assert_eq!(w.len(), 37);
    assert_eq!(w[0], (-1, -3));
    assert_eq!(w[36], (1, 3));
    assert!(w.iter().all(|&(i, j)| 4 * (i * i + j * j) <= 49));
}

#[test]
fn test_orientation() {
    let mut image = GrayImage::new(20, 20);
    imageops::horizontal_gradient(&mut image, &Luma([0]), &Luma([255]));
    let a = angle(orientation(&to_gray(&image), 10, 10, 3));
    assert_eq!(a, 0.0);
    let pi_over_4 = std::f32::consts::PI / 4.0;
    let im_r = geometric_transformations::rotate_about_center(&image,
                            pi_over_4,
                            geometric_transformations::Interpolation::Nearest,
                            Luma([0]));
    let a = angle(orientation(&to_gray(&im_r), 10, 10, 3));
    assert_eq!(a, pi_over_4);
    let im_r = geometric_transformations::rotate_about_center(&image,
                            3.0 * pi_over_4,
                            geometric_transformations::Interpolation::Nearest,
                            Luma([0]));
    let a = angle(orientation(&to_gray(&im_r), 10, 10, 3));
    assert_eq!(a, 3.0 * pi_over_4);
}

#[test]
fn orientation_are_zero_near_edges_and_exact_inside() {
    let mut image = GrayImage::new(9, 9);
    imageops::horizontal_gradient(&mut image, &Luma([0]), &Luma([255]));
    let g = to_gray(&image);
    assert_eq!(orientation(&g, 1, 4, 3), (0, 0));
    assert_eq!(orientation(&g, 4, 6, 3), (0, 0));
    // One bright pixel right of the centre: m10 = 1 * 200, m01 = 0.
    let mut pixels = vec![0u8; 81];
    pixels[4 * 9 + 5] = 200;
    let g = Gray::from_raw(9, 9, pixels).unwrap();
    assert_eq!(orientation(&g, 4, 4, 3), (0, 200));
}

#[test]
fn find_features_scores_fast_corners_with_harris() {
    let mut img = ImageBuffer::from_pixel(32, 32, Luma([0u8]));
    let square = ImageBuffer::from_pixel(12, 12, Luma([255u8]));
    imageops::replace(&mut img, &square, 10, 10);
    let g = to_gray(&img);
    let found = find_features(&g, 32);
    assert!(!found.is_empty());
    for c in found.iter() {
        assert!(c.x < 32 && c.y < 32);
        assert_eq!(c.score, harris_score(&g, c.x, c.y, 3));
    }
    let expected = imageproc::corners::corners_fast9(&img, 32);
    assert_eq!(found.len(), expected.len());
}
