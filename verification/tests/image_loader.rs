use xbrztrace::image_loader::{detect_integer_zoom, dezoom};
use xbrztrace::xbrz_engine::{Argb, ArgbImage};

#[test]
fn detects_2x_zoom() {
    // Create a 2x2 base image
    let base = vec![
        Argb::from_rgba(255, 0, 0, 255),
        Argb::from_rgba(0, 255, 0, 255),
        Argb::from_rgba(0, 0, 255, 255),
        Argb::from_rgba(255, 255, 0, 255),
    ];
    let base_img = ArgbImage::new(2, 2, base);

    // Create 4x4 zoomed version (2x)
    let mut zoomed_pixels = vec![Argb(0); 16];
    for y in 0..4 {
        for x in 0..4 {
            zoomed_pixels[y * 4 + x] = base_img.pixels[(y / 2) * 2 + (x / 2)];
        }
    }
    let zoomed = ArgbImage::new(4, 4, zoomed_pixels);

    let info = detect_integer_zoom(&zoomed);
    assert_eq!(info.factor, 2);
    assert!(info.is_zoomed);

    let dezoomed = dezoom(&zoomed, 2);
    assert_eq!(dezoomed.width, 2);
    assert_eq!(dezoomed.height, 2);
    assert_eq!(dezoomed.pixels, base_img.pixels);
}

#[test]
fn detects_3x_zoom() {
    let base = vec![Argb::from_rgba(10, 20, 30, 255); 9];
    let base_img = ArgbImage::new(3, 3, base);

    let mut zoomed_pixels = vec![Argb(0); 81];
    for y in 0..9 {
        for x in 0..9 {
            zoomed_pixels[y * 9 + x] = base_img.pixels[(y / 3) * 3 + (x / 3)];
        }
    }
    let zoomed = ArgbImage::new(9, 9, zoomed_pixels);

    let info = detect_integer_zoom(&zoomed);
    assert_eq!(info.factor, 3);
    assert!(info.is_zoomed);
}

#[test]
fn no_false_positive_on_non_zoomed() {
    // A natural-looking 4x4 image that isn't a perfect integer zoom
    let pixels: Vec<Argb> = (0..16)
        .map(|i| Argb::from_rgba((i * 17) as u8, (i * 31) as u8, (i * 11) as u8, 255))
        .collect();
    let img = ArgbImage::new(4, 4, pixels);

    let info = detect_integer_zoom(&img);
    assert_eq!(info.factor, 1);
    assert!(!info.is_zoomed);
}

#[test]
fn non_divisible_dimensions_not_zoomed() {
    let pixels = vec![Argb::from_rgba(255, 0, 0, 255); 15];
    let img = ArgbImage::new(5, 3, pixels); // 5x3 not divisible by 2,3,4,5,6

    let info = detect_integer_zoom(&img);
    assert_eq!(info.factor, 1);
    assert!(!info.is_zoomed);
}

/// Blow `base` up by `factor` in both directions.
fn zoom(base: &ArgbImage, factor: usize) -> ArgbImage {
    let (w, h) = (base.width * factor, base.height * factor);
    let mut pixels = Vec::with_capacity(w * h);
    for y in 0..h {
        for x in 0..w {
            pixels.push(base.pixels[(y / factor) * base.width + x / factor]);
        }
    }
    ArgbImage::new(w, h, pixels)
}

#[test]
fn largest_factor_wins() {
    // A 6x zoom is also a 2x and a 3x zoom; the largest factor is reported.
    let base = ArgbImage::new(
        2,
        1,
        vec![Argb::from_rgba(1, 2, 3, 255), Argb::from_rgba(4, 5, 6, 255)],
    );
    let zoomed = zoom(&base, 6);
    let info = detect_integer_zoom(&zoomed);
    assert_eq!(info.factor, 6);
    assert!(info.is_zoomed);
    let back = dezoom(&zoomed, 6);
    assert_eq!(back.pixels, base.pixels);
}

#[test]
fn dezoom_undoes_zoom_for_every_factor() {
    let base = ArgbImage::new(
        3,
        2,
        vec![
            Argb::from_rgba(10, 0, 0, 255),
            Argb::from_rgba(0, 20, 0, 255),
            Argb::from_rgba(0, 0, 30, 255),
            Argb::from_rgba(40, 40, 0, 128),
            Argb(0),
            Argb::from_rgba(50, 60, 70, 255),
        ],
    );
    for factor in 2..=6usize {
        let zoomed = zoom(&base, factor);
        let back = dezoom(&zoomed, factor as u8);
        assert_eq!(back.width, 3);
        assert_eq!(back.height, 2);
        assert_eq!(back.pixels, base.pixels);
    }
}

#[test]
fn empty_image_counts_as_zoomed_by_the_largest_factor() {
    // Every factor divides zero, and an empty image matches its own
    // upscale, so the largest factor is reported.
    let empty = ArgbImage::new(0, 0, vec![]);
    let info = detect_integer_zoom(&empty);
    assert_eq!(info.factor, 6);
    assert!(info.is_zoomed);
}

#[test]
fn single_pixel_image_is_not_zoomed() {
    let one = ArgbImage::new(1, 1, vec![Argb::from_rgba(9, 9, 9, 255)]);
    let info = detect_integer_zoom(&one);
    assert_eq!(info.factor, 1);
    assert!(!info.is_zoomed);
}
