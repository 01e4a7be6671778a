//! End-to-end tests with the standard floating-point colour metric that the
//! command-line program hands to the library: xBRZ scaling, colour
//! quantization, tracing and SVG output, checked by rasterizing the SVG back
//! into a grid with an independent even-odd rasterizer.

use std::collections::HashSet;

use xbrztrace::optimizer::{is_optimizable, optimize};
use xbrztrace::quantize::quantize_with;
use xbrztrace::svg_exporter::export;
use xbrztrace::vectorizer::{vectorize, PathLoop, Region};
use xbrztrace::xbrz_engine::{
    scale_image_with, Argb, ArgbImage, CornerJudgement, DiagonalVerdict, Kernel3, Kernel4,
};

// ---------------------------------------------------------------------------
// The standard colour metric
// ---------------------------------------------------------------------------

const EQUAL_COLOR_TOLERANCE: f64 = 30.0;
const DOMINANT_DIRECTION_THRESHOLD: f64 = 3.6;
const STEEP_DIRECTION_THRESHOLD: f64 = 2.2;

fn dist_ycbcr(p1: Argb, p2: Argb) -> f64 {
    fn quant(d: i32) -> i32 {
        (d + 255) / 2 * 2 - 255
    }
    let r_diff = quant(p1.r() as i32 - p2.r() as i32);
    let g_diff = quant(p1.g() as i32 - p2.g() as i32);
    let b_diff = quant(p1.b() as i32 - p2.b() as i32);
    const K_B: f64 = 0.0593;
    const K_R: f64 = 0.2627;
    const K_G: f64 = 1.0 - K_B - K_R;
    const SCALE_B: f64 = 0.5 / (1.0 - K_B);
    const SCALE_R: f64 = 0.5 / (1.0 - K_R);
    let y = K_R * r_diff as f64 + K_G * g_diff as f64 + K_B * b_diff as f64;
    let c_b = SCALE_B * (b_diff as f64 - y);
    let c_r = SCALE_R * (r_diff as f64 - y);
    (y * y + c_b * c_b + c_r * c_r).sqrt() as f32 as f64
}

fn color_dist(p1: Argb, p2: Argb) -> f64 {
    let d = dist_ycbcr(p1, p2);
    let a1 = p1.a() as f64 / 255.0;
    let a2 = p2.a() as f64 / 255.0;
    if a1 < a2 {
        a1 * d + 255.0 * (a2 - a1)
    } else {
        a2 * d + 255.0 * (a1 - a2)
    }
}

fn diagonal_verdict(k: &Kernel4) -> DiagonalVerdict {
    let weight = 4.0;
    let jg = color_dist(k.i, k.f)
        + color_dist(k.f, k.c)
        + color_dist(k.n, k.k)
        + color_dist(k.k, k.h)
        + weight * color_dist(k.j, k.g);
    let fk = color_dist(k.e, k.j)
        + color_dist(k.j, k.o)
        + color_dist(k.b, k.g)
        + color_dist(k.g, k.l)
        + weight * color_dist(k.f, k.k);
    if jg < fk {
        DiagonalVerdict::AlongJg {
            dominant: DOMINANT_DIRECTION_THRESHOLD * jg < fk,
        }
    } else if fk < jg {
        DiagonalVerdict::AlongFk {
            dominant: DOMINANT_DIRECTION_THRESHOLD * fk < jg,
        }
    } else {
        DiagonalVerdict::Balanced
    }
}

fn corner_judgement(k: &Kernel3) -> CornerJudgement {
    let eq = |p1: Argb, p2: Argb| color_dist(p1, p2) < EQUAL_COLOR_TOLERANCE;
    let fg = color_dist(k.f, k.g);
    let hc = color_dist(k.h, k.c);
    CornerJudgement {
        e_like_g: eq(k.e, k.g),
        e_like_c: eq(k.e, k.c),
        e_like_i: eq(k.e, k.i),
        g_like_h: eq(k.g, k.h),
        h_like_i: eq(k.h, k.i),
        i_like_f: eq(k.i, k.f),
        f_like_c: eq(k.f, k.c),
        f_nearer: color_dist(k.e, k.f) <= color_dist(k.e, k.h),
        shallow: STEEP_DIRECTION_THRESHOLD * fg <= hc,
        steep: STEEP_DIRECTION_THRESHOLD * hc <= fg,
    }
}

fn scale_image(src: &ArgbImage, factor: u8) -> ArgbImage {
    scale_image_with(
        src,
        factor,
        |k: Kernel4| diagonal_verdict(&k),
        |k: Kernel3| corner_judgement(&k),
    )
}

fn quantize(img: &ArgbImage, tolerance: f64) -> ArgbImage {
    if tolerance <= 0.0 || img.pixels.is_empty() {
        return img.clone();
    }
    let cell = (2.0 * tolerance).max(1.0) as u32;
    quantize_with(img, cell, move |c: Argb, rep: Argb| color_dist(c, rep) <= tolerance)
}

// ---------------------------------------------------------------------------
// Grids
// ---------------------------------------------------------------------------

fn grid(rows: &[&str], palette: &[(char, Argb)]) -> ArgbImage {
    let h = rows.len();
    let w = rows[0].len();
    let mut pixels = Vec::with_capacity(w * h);
    for row in rows {
        assert_eq!(row.len(), w, "ragged test row: {row:?}");
        for ch in row.chars() {
            let color = palette
                .iter()
                .find(|(c, _)| *c == ch)
                .map(|(_, a)| *a)
                .unwrap_or(Argb(0));
            pixels.push(color);
        }
    }
    ArgbImage::new(w, h, pixels)
}

fn pattern_diag() -> ArgbImage {
    let rows = [
        "AAAAAABB", "AAAAABBB", "AAAABBBB", "AAABBBBB", "AABBBBBB", "ABBBBBBB", "BBBBBBBB",
        "BBBBBBBB",
    ];
    let palette = [
        ('A', Argb::from_rgba(255, 80, 80, 255)),
        ('B', Argb::from_rgba(48, 192, 48, 255)),
    ];
    grid(&rows, &palette)
}

fn ghost() -> ArgbImage {
    let rows = [
        "................",
        "..##########....",
        ".#RRRRRRRRR#....",
        ".#RRRRRRRRR#....",
        ".#RWWWWWWRR#....",
        ".#RWWWWWWRR#....",
        ".#RWWWWWWRR#....",
        ".#RRRRRRRRR#....",
        ".#RKKRKKRRR#....",
        ".#RKKRKKRRR#....",
        ".#RRRRRRRRR#....",
        ".#RRRRRRRRR#....",
        ".#RRRRRRRRR#....",
        "..####..####....",
        "................",
        "................",
    ];
    let palette = [
        ('.', Argb::from_rgba(0, 0, 0, 0)),
        ('#', Argb::from_rgba(40, 40, 48, 255)),
        ('R', Argb::from_rgba(220, 60, 60, 255)),
        ('W', Argb::from_rgba(240, 240, 245, 255)),
        ('K', Argb::from_rgba(20, 20, 25, 255)),
    ];
    grid(&rows, &palette)
}

/// A reproducible pseudo-random grid over `palette`.
fn noise(w: usize, h: usize, palette: &[Argb], seed: u64) -> ArgbImage {
    let mut state = seed.wrapping_mul(6364136223846793005).wrapping_add(1442695040888963407);
    let mut pixels = Vec::with_capacity(w * h);
    for _ in 0..w * h {
        state = state
            .wrapping_mul(6364136223846793005)
            .wrapping_add(1442695040888963407);
        pixels.push(palette[((state >> 33) % palette.len() as u64) as usize]);
    }
    ArgbImage::new(w, h, pixels)
}

// ---------------------------------------------------------------------------
// An independent SVG rasterizer: even-odd rule against the vertical edges of
// every loop, sampling pixel centres
// ---------------------------------------------------------------------------

fn read_num(bytes: &[u8], mut i: usize) -> (i32, usize) {
    while i < bytes.len() && (bytes[i] as char).is_whitespace() {
        i += 1;
    }
    let start = i;
    if i < bytes.len() && bytes[i] == b'-' {
        i += 1;
    }
    while i < bytes.len() && (bytes[i] as char).is_ascii_digit() {
        i += 1;
    }
    assert!(i > start, "expected a number in path data");
    (
        std::str::from_utf8(&bytes[start..i])
            .unwrap()
            .parse()
            .unwrap(),
        i,
    )
}

fn parse_path_data(d: &str) -> Vec<Vec<(i32, i32)>> {
    let bytes = d.as_bytes();
    let mut i = 0;
    let mut loops = Vec::new();
    let mut cur: Vec<(i32, i32)> = Vec::new();
    while i < bytes.len() {
        match bytes[i] as char {
            'M' | 'L' => {
                i += 1;
                let (x, n) = read_num(bytes, i);
                i = n;
                let (y, n) = read_num(bytes, i);
                i = n;
                cur.push((x, y));
            }
            'H' => {
                i += 1;
                let (x, n) = read_num(bytes, i);
                i = n;
                let (_, y) = *cur.last().unwrap();
                cur.push((x, y));
            }
            'V' => {
                i += 1;
                let (y, n) = read_num(bytes, i);
                i = n;
                let (x, _) = *cur.last().unwrap();
                cur.push((x, y));
            }
            'Z' => {
                loops.push(std::mem::take(&mut cur));
                i += 1;
            }
            c if c.is_whitespace() => i += 1,
            other => panic!("unexpected character {other:?} in path data"),
        }
    }
    if !cur.is_empty() {
        loops.push(cur);
    }
    loops
}

fn vertical_edges(loop_: &[(i32, i32)]) -> Vec<(i32, i32, i32)> {
    let mut out = Vec::new();
    for i in 0..loop_.len() {
        let (x1, y1) = loop_[i];
        let (x2, y2) = loop_[(i + 1) % loop_.len()];
        if x1 == x2 {
            out.push((x1, y1.min(y2), y1.max(y2)));
        }
    }
    out
}

fn attr<'a>(tag: &'a str, name: &str) -> Option<&'a str> {
    let key = format!("{name}=\"");
    let start = tag.find(&key)? + key.len();
    let end = tag[start..].find('"')? + start;
    Some(&tag[start..end])
}

fn parse_hex_color(s: &str) -> (u8, u8, u8) {
    let s = s.strip_prefix('#').unwrap();
    assert_eq!(s.len(), 6);
    (
        u8::from_str_radix(&s[0..2], 16).unwrap(),
        u8::from_str_radix(&s[2..4], 16).unwrap(),
        u8::from_str_radix(&s[4..6], 16).unwrap(),
    )
}

fn rasterize_svg(svg: &str, w: usize, h: usize) -> Vec<Argb> {
    let mut grid = vec![Argb(0); w * h];
    for tag in svg.split("<path ").skip(1) {
        let d = attr(tag, "d").expect("path without d");
        let fill = attr(tag, "fill").expect("path without fill");
        let opacity: f64 = attr(tag, "fill-opacity")
            .map(|s| s.parse().unwrap())
            .unwrap_or(1.0);
        let (r, g, b) = parse_hex_color(fill);
        let alpha = (255.0 * opacity).round() as u8;
        let color = Argb::from_rgba(r, g, b, alpha);
        let edges: Vec<(i32, i32, i32)> = parse_path_data(d)
            .iter()
            .flat_map(|l| vertical_edges(l))
            .collect();
        for y in 0..h {
            let cy = y as f64 + 0.5;
            for x in 0..w {
                let cx = x as f64 + 0.5;
                let crossings = edges
                    .iter()
                    .filter(|(ex, ey1, ey2)| {
                        *ex as f64 > cx && (*ey1 as f64) < cy && cy < (*ey2 as f64)
                    })
                    .count();
                if crossings % 2 == 1 {
                    grid[y * w + x] = color;
                }
            }
        }
    }
    grid
}

fn assert_round_trip(img: &ArgbImage) {
    let regions = vectorize(img, true);
    let svg = export(&regions, img.width, img.height);
    assert_eq!(rasterize_svg(&svg, img.width, img.height), img.pixels);
}

fn assert_optimized_round_trip(img: &ArgbImage) {
    let mut regions = vectorize(img, true);
    optimize(&mut regions);
    let svg = export(&regions, img.width, img.height);
    assert_eq!(rasterize_svg(&svg, img.width, img.height), img.pixels);
}

fn distinct(img: &ArgbImage) -> HashSet<Argb> {
    img.pixels.iter().copied().collect()
}

fn row(colors: &[Argb]) -> ArgbImage {
    ArgbImage::new(colors.len(), 1, colors.to_vec())
}

// ---------------------------------------------------------------------------
// Tracing the scaled sprite
// ---------------------------------------------------------------------------

#[test]
fn round_trip_16x16_sprite_is_exact() {
    let sprite = ghost();
    for factor in [2u8, 3u8, 4u8, 6u8] {
        let scaled = scale_image(&sprite, factor);
        let regions = vectorize(&scaled, true);
        let svg = export(&regions, scaled.width, scaled.height);
        let raster = rasterize_svg(&svg, scaled.width, scaled.height);
        assert_eq!(
            raster,
            scaled.pixels,
            "SVG round-trip mismatch at {factor}x ({} colors, {} paths)",
            regions.len(),
            regions.len()
        );
    }
}

#[test]
fn round_trip_diagonal_pattern_is_exact() {
    let src = pattern_diag();
    for factor in [2u8, 4u8, 5u8] {
        let scaled = scale_image(&src, factor);
        let regions = vectorize(&scaled, true);
        let svg = export(&regions, scaled.width, scaled.height);
        let raster = rasterize_svg(&svg, scaled.width, scaled.height);
        assert_eq!(raster, scaled.pixels, "round-trip mismatch at {factor}x");
    }
}

#[test]
fn merged_paths_equal_color_count() {
    let scaled = scale_image(&ghost(), 4);
    let expected_colors: HashSet<Argb> = scaled
        .pixels
        .iter()
        .copied()
        .filter(|p| p.a() != 0)
        .collect();
    let merged = vectorize(&scaled, true);
    assert_eq!(merged.len(), expected_colors.len());
    let colors: HashSet<Argb> = merged.iter().map(|r| r.color).collect();
    assert_eq!(colors.len(), merged.len());
    assert!(merged.iter().all(|r| r.color.a() != 0));
}

#[test]
fn unmerged_paths_have_more_elements() {
    let scaled = scale_image(&ghost(), 4);
    let merged = vectorize(&scaled, true);
    let unmerged = vectorize(&scaled, false);
    assert!(unmerged.len() > merged.len());
    assert!(unmerged.iter().all(|r| r.loops.len() == 1));
}

#[test]
fn svg_has_correct_dimensions_and_viewbox() {
    let scaled = scale_image(&ghost(), 4);
    let regions = vectorize(&scaled, true);
    let svg = export(&regions, scaled.width, scaled.height);
    assert!(svg.contains(&format!(
        "width=\"{}\" height=\"{}\" viewBox=\"0 0 {} {}\"",
        scaled.width, scaled.height, scaled.width, scaled.height
    )));
    assert!(svg.contains("shape-rendering=\"crispEdges\""));
}

#[test]
fn ghost_colors_appear_in_output() {
    let scaled = scale_image(&ghost(), 4);
    let regions = vectorize(&scaled, true);
    let svg = export(&regions, scaled.width, scaled.height);
    let outline = Argb::from_rgba(40, 40, 48, 255);
    assert!(
        regions.iter().any(|r| r.color == outline),
        "outline color missing from vectorized output"
    );
    assert!(svg.contains("fill=\"#282830\""));
}

#[test]
fn deterministic_output() {
    let scaled = scale_image(&ghost(), 4);
    let a = export(&vectorize(&scaled, true), scaled.width, scaled.height);
    let b = export(&vectorize(&scaled, true), scaled.width, scaled.height);
    assert_eq!(a, b);
}

// ---------------------------------------------------------------------------
// Round trips on reproducible noise
// ---------------------------------------------------------------------------

fn noise_palette() -> Vec<Argb> {
    vec![
        Argb::from_rgba(220, 60, 60, 255),
        Argb::from_rgba(48, 192, 48, 255),
        Argb::from_rgba(10, 20, 200, 255),
        Argb(0),
    ]
}

fn translucent_palette() -> Vec<Argb> {
    vec![
        Argb::from_rgba(220, 60, 60, 255),
        Argb::from_rgba(48, 192, 48, 255),
        Argb::from_rgba(128, 255, 255, 128),
        Argb(0),
    ]
}

#[test]
fn noise_grids_rasterize_back_exactly() {
    for seed in 0..40u64 {
        let w = 1 + (seed as usize * 7) % 12;
        let h = 1 + (seed as usize * 5) % 12;
        assert_round_trip(&noise(w, h, &noise_palette(), seed));
        assert_round_trip(&noise(w, h, &translucent_palette(), seed + 1000));
    }
}

#[test]
fn optimized_noise_grids_rasterize_back_exactly() {
    for seed in 0..40u64 {
        let w = 1 + (seed as usize * 3) % 12;
        let h = 1 + (seed as usize * 11) % 12;
        assert_optimized_round_trip(&noise(w, h, &noise_palette(), seed));
        assert_optimized_round_trip(&noise(w, h, &translucent_palette(), seed + 2000));
    }
}

#[test]
fn scaled_noise_rasterizes_back_exactly() {
    for seed in 0..12u64 {
        let w = 1 + (seed as usize * 5) % 8;
        let h = 1 + (seed as usize * 3) % 8;
        let factor = 2 + (seed % 2) as u8;
        let scaled = scale_image(&noise(w, h, &noise_palette(), seed), factor);
        assert_eq!(scaled.width, w * factor as usize);
        assert_round_trip(&scaled);
    }
}

#[test]
fn optimizing_traced_noise_changes_nothing() {
    for seed in 0..20u64 {
        let img = noise(9, 7, &noise_palette(), seed);
        let mut regions = vectorize(&img, true);
        let before = regions.clone();
        let stats = optimize(&mut regions);
        assert_eq!(regions, before);
        assert_eq!(stats.points_after, stats.points_before);
    }
}

#[test]
fn quantized_noise_rasterizes_back_exactly() {
    for seed in 0..12u64 {
        let img = noise(10, 6, &translucent_palette(), seed);
        assert_round_trip(&quantize(&img, 40.0));
    }
}

// ---------------------------------------------------------------------------
// Quantization with the standard metric
// ---------------------------------------------------------------------------

#[test]
fn near_duplicates_merge_into_one_color() {
    let base = Argb::from_rgba(200, 100, 50, 255);
    let a = Argb::from_rgba(204, 102, 52, 255);
    let b = Argb::from_rgba(196, 98, 48, 255);
    let out = quantize(&row(&[base, a, b]), 30.0);
    assert_eq!(distinct(&out).len(), 1);
    for (orig, q) in [base, a, b].iter().zip(out.pixels.iter()) {
        assert!(color_dist(*orig, *q) <= 30.0);
    }
}

#[test]
fn distant_colors_are_kept() {
    let red = Argb::from_rgba(255, 0, 0, 255);
    let blue = Argb::from_rgba(0, 0, 255, 255);
    let out = quantize(&row(&[red, blue]), 30.0);
    assert_eq!(distinct(&out).len(), 2);
}

#[test]
fn most_frequent_shade_becomes_representative() {
    let main = Argb::from_rgba(200, 100, 50, 255);
    let v1 = Argb::from_rgba(202, 98, 52, 255);
    let v2 = Argb::from_rgba(198, 102, 48, 255);
    let out = quantize(&row(&[v1, main, v2, main, main]), 30.0);
    assert!(out.pixels.iter().all(|&p| p == main));
}

#[test]
fn tolerance_bounds_the_maximum_shift() {
    let mut colors = Vec::new();
    for i in 0..10u8 {
        colors.push(Argb::from_rgba(100 + i * 15, 50, 50, 255));
    }
    let img = row(&colors);
    let out = quantize(&img, 30.0);
    assert!(distinct(&out).len() < colors.len(), "expected some merging");
    for (orig, q) in img.pixels.iter().zip(out.pixels.iter()) {
        assert!(color_dist(*orig, *q) <= 30.0, "{orig:?} -> {q:?}");
    }
}

#[test]
fn transparent_and_opaque_do_not_merge() {
    let opaque = Argb::from_rgba(200, 100, 50, 255);
    let transparent = Argb::from_rgba(200, 100, 50, 0);
    let out = quantize(&row(&[opaque, transparent]), 100.0);
    assert_eq!(distinct(&out).len(), 2);
}

#[test]
fn transparent_pixels_with_close_rgb_merge() {
    let t1 = Argb(0x00000000);
    let t2 = Argb(0x00010101);
    let out = quantize(&row(&[t1, t2]), 30.0);
    assert_eq!(distinct(&out).len(), 1);
}

#[test]
fn zero_or_negative_tolerance_is_a_no_op() {
    let img = row(&[
        Argb::from_rgba(200, 100, 50, 255),
        Argb::from_rgba(204, 102, 52, 255),
    ]);
    assert_eq!(quantize(&img, 0.0).pixels, img.pixels);
    assert_eq!(quantize(&img, -5.0).pixels, img.pixels);
}

#[test]
fn single_color_and_empty_images_are_unchanged() {
    let solid = ArgbImage::new(4, 4, vec![Argb::from_rgba(1, 2, 3, 255); 16]);
    assert_eq!(quantize(&solid, 30.0).pixels, solid.pixels);
    let empty = ArgbImage::new(0, 0, vec![]);
    assert_eq!(quantize(&empty, 30.0).pixels, empty.pixels);
}

#[test]
fn output_is_deterministic() {
    let img = row(&[
        Argb::from_rgba(200, 100, 50, 255),
        Argb::from_rgba(204, 102, 52, 255),
        Argb::from_rgba(10, 200, 90, 255),
        Argb::from_rgba(12, 198, 92, 255),
        Argb(0),
    ]);
    assert_eq!(quantize(&img, 30.0).pixels, quantize(&img, 30.0).pixels);
}

// ---------------------------------------------------------------------------
// xBRZ with the standard metric
// ---------------------------------------------------------------------------

#[test]
fn uniform_images_stay_uniform_at_every_factor() {
    for factor in 2u8..=6 {
        for color in [0xff12_3456u32, 0x0000_0000, 0x80ff_00ff] {
            let img = ArgbImage::new(5, 3, vec![Argb(color); 15]);
            let out = scale_image(&img, factor);
            assert_eq!(out.width, 5 * factor as usize);
            assert_eq!(out.height, 3 * factor as usize);
            assert!(out.pixels.iter().all(|&p| p == Argb(color)));
        }
    }
}

#[test]
fn scaling_noise_is_deterministic() {
    for seed in 0..8u64 {
        let img = noise(6, 5, &noise_palette(), seed);
        let a = scale_image(&img, 3);
        let b = scale_image(&img, 3);
        assert_eq!(a.pixels, b.pixels);
        assert_eq!((a.width, a.height), (18, 15));
    }
}

#[test]
fn traced_loops_have_only_true_corners() {
    for seed in 0..20u64 {
        let img = noise(8, 9, &noise_palette(), seed);
        for merge in [true, false] {
            for region in vectorize(&img, merge) {
                for l in &region.loops {
                    let p = &l.points;
                    let n = p.len();
                    assert!(n >= 4, "a traced loop has at least four corners");
                    for i in 0..n {
                        let (a, b, c) = (p[(i + n - 1) % n], p[i], p[(i + 1) % n]);
                        let d1 = ((b.0 - a.0) as i64, (b.1 - a.1) as i64);
                        let d2 = ((c.0 - b.0) as i64, (c.1 - b.1) as i64);
                        assert_ne!(d1, (0, 0));
                        assert_ne!(d2, (0, 0));
                        assert_ne!(d1.0 * d2.1 - d1.1 * d2.0, 0, "collinear point {b:?}");
                    }
                }
            }
        }
    }
}

#[test]
fn unmerged_regions_are_the_merged_loops_one_by_one() {
    for seed in 0..20u64 {
        let img = noise(7, 6, &noise_palette(), seed);
        let merged = vectorize(&img, true);
        let split: Vec<Region> = merged
            .iter()
            .flat_map(|r| {
                r.loops.iter().map(move |l| Region {
                    color: r.color,
                    loops: vec![l.clone()],
                })
            })
            .collect();
        assert_eq!(vectorize(&img, false), split);
    }
}

#[test]
fn traced_regions_can_be_optimized() {
    for seed in 0..10u64 {
        let img = noise(6, 6, &noise_palette(), seed);
        assert!(is_optimizable(&vectorize(&img, true)));
        assert!(is_optimizable(&vectorize(&img, false)));
    }
    let negative = vec![Region {
        color: Argb(0xff00_0000),
        loops: vec![PathLoop {
            points: vec![(0, 0), (-1, 0), (-1, -1)],
        }],
    }];
    assert!(!is_optimizable(&negative));
    assert!(is_optimizable(&[]));
}

#[test]
fn solid_block_stays_solid() {
    let src = ArgbImage::new(4, 4, vec![Argb::from_rgba(10, 20, 30, 255); 16]);
    for factor in 2..=6 {
        let out = scale_image(&src, factor);
        assert_eq!(out.width, 4 * factor as usize);
        assert_eq!(out.height, 4 * factor as usize);
        assert!(out
            .pixels
            .iter()
            .all(|&p| p == Argb::from_rgba(10, 20, 30, 255)));
    }
}

#[test]
fn horizontal_edge_stays_horizontal() {
    let w = 6;
    let h = 6;
    let red = Argb::from_rgba(255, 0, 0, 255);
    let green = Argb::from_rgba(0, 255, 0, 255);
    let mut pixels = Vec::with_capacity(w * h);
    for y in 0..h {
        for _ in 0..w {
            pixels.push(if y < 3 { red } else { green });
        }
    }
    let src = ArgbImage::new(w, h, pixels);
    for factor in 2..=6 {
        let out = scale_image(&src, factor);
        let s = factor as usize;
        for y in 0..out.height {
            for x in 0..out.width {
                let expected = if y < 3 * s { red } else { green };
                assert_eq!(
                    out.pixels[y * out.width + x],
                    expected,
                    "factor {factor} at ({x},{y})"
                );
            }
        }
    }
}
