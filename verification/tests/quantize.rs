use xbrztrace::quantize::{distinct_colors, quantize_with};
use xbrztrace::xbrz_engine::{Argb, ArgbImage};

fn row(colors: &[Argb]) -> ArgbImage {
    ArgbImage::new(colors.len(), 1, colors.to_vec())
}

/// Close: same alpha and every colour channel within `t`.
fn within(t: u32) -> impl Fn(Argb, Argb) -> bool {
    move |a: Argb, b: Argb| {
        a.a() == b.a()
            && a.r().abs_diff(b.r()) <= t
            && a.g().abs_diff(b.g()) <= t
            && a.b().abs_diff(b.b()) <= t
    }
}

fn distinct(img: &ArgbImage) -> Vec<Argb> {
    let mut v: Vec<Argb> = Vec::new();
    for p in &img.pixels {
        if !v.contains(p) {
            v.push(*p);
        }
    }
    v
}

#[test]
fn near_duplicates_join_the_first_representative() {
    let base = Argb::from_rgba(200, 100, 50, 255);
    let a = Argb::from_rgba(204, 102, 52, 255);
    let b = Argb::from_rgba(196, 98, 48, 255);
    // All three are equally frequent: the lowest value is visited first and
    // becomes the representative.
    let out = quantize_with(&row(&[base, a, b]), 16, within(8));
    assert_eq!(out.pixels, vec![b, b, b]);
}

#[test]
fn most_frequent_shade_wins() {
    let main = Argb::from_rgba(200, 100, 50, 255);
    let v1 = Argb::from_rgba(202, 98, 52, 255);
    let v2 = Argb::from_rgba(198, 102, 48, 255);
    let out = quantize_with(&row(&[v1, main, v2, main, main]), 16, within(8));
    assert!(out.pixels.iter().all(|&p| p == main));
}

#[test]
fn distant_colours_are_kept() {
    let red = Argb::from_rgba(255, 0, 0, 255);
    let blue = Argb::from_rgba(0, 0, 255, 255);
    let out = quantize_with(&row(&[red, blue]), 16, within(8));
    assert_eq!(out.pixels, vec![red, blue]);
}

#[test]
fn single_colour_and_empty_images_come_back_unchanged() {
    let solid = ArgbImage::new(4, 4, vec![Argb::from_rgba(1, 2, 3, 255); 16]);
    let out = quantize_with(&solid, 16, |_a: Argb, _b: Argb| true);
    assert_eq!(out.pixels, solid.pixels);
    assert_eq!((out.width, out.height), (4, 4));
    let empty = ArgbImage::new(0, 0, vec![]);
    assert_eq!(quantize_with(&empty, 16, |_a: Argb, _b: Argb| true).pixels, empty.pixels);
}

#[test]
fn only_the_own_and_adjacent_cells_are_searched() {
    let dark = Argb::from_rgba(0, 0, 0, 255);
    let light = Argb::from_rgba(40, 0, 0, 255);
    // Everything counts as close, but with 10-unit cells the two colours
    // are four cells apart.
    let apart = quantize_with(&row(&[dark, dark, light]), 10, |_a: Argb, _b: Argb| true);
    assert_eq!(apart.pixels, vec![dark, dark, light]);
    // With 32-unit cells they are neighbours.
    let merged = quantize_with(&row(&[dark, dark, light]), 32, |_a: Argb, _b: Argb| true);
    assert_eq!(merged.pixels, vec![dark, dark, dark]);
}

#[test]
fn earlier_cell_wins_among_close_representatives() {
    // Two representatives both close to `mid`: the one in the earlier cell
    // (row-major over red, green, blue) is chosen, even though the other
    // one is more frequent.
    let low = Argb::from_rgba(0, 40, 0, 255);
    let high = Argb::from_rgba(40, 0, 0, 255);
    let mid = Argb::from_rgba(20, 20, 0, 255);
    let img = row(&[high, high, high, low, low, mid]);
    let close = |a: Argb, b: Argb| a == b || a == mid;
    let out = quantize_with(&img, 20, close);
    assert_eq!(out.pixels, vec![high, high, high, low, low, low]);
}

#[test]
fn every_colour_maps_to_a_close_more_frequent_one() {
    let mut colors = Vec::new();
    for i in 0..10u8 {
        colors.push(Argb::from_rgba(100 + i * 15, 50, 50, 255));
    }
    let img = row(&colors);
    let close = within(20);
    let out = quantize_with(&img, 20, within(20));
    assert!(distinct(&out).len() < colors.len(), "expected some merging");
    for (orig, q) in img.pixels.iter().zip(out.pixels.iter()) {
        assert!(orig == q || close(*orig, *q), "{orig:?} -> {q:?}");
    }
}

#[test]
fn clustering_is_deterministic() {
    let img = row(&[
        Argb::from_rgba(200, 100, 50, 255),
        Argb::from_rgba(204, 102, 52, 255),
        Argb::from_rgba(10, 200, 90, 255),
        Argb::from_rgba(12, 198, 92, 255),
        Argb(0),
    ]);
    assert_eq!(
        quantize_with(&img, 16, within(8)).pixels,
        quantize_with(&img, 16, within(8)).pixels
    );
}

#[test]
fn distinct_colours_skip_transparent_pixels() {
    let img = row(&[
        Argb::from_rgba(1, 2, 3, 255),
        Argb::from_rgba(1, 2, 3, 255),
        Argb::from_rgba(1, 2, 3, 128),
        Argb::from_rgba(9, 9, 9, 0),
        Argb(0),
        Argb::from_rgba(4, 5, 6, 1),
    ]);
    assert_eq!(distinct_colors(&img), 3);
    assert_eq!(distinct_colors(&ArgbImage::new(0, 0, vec![])), 0);
}
