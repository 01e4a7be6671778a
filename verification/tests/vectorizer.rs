use xbrztrace::svg_exporter::export;
use xbrztrace::vectorizer::{is_traceable, vectorize};
use xbrztrace::xbrz_engine::{Argb, ArgbImage};

fn grid_from_rows(rows: &[&str], palette: &[(char, Argb)]) -> ArgbImage {
    let h = rows.len();
    let w = rows[0].len();
    let mut pixels = Vec::with_capacity(w * h);
    for row in rows {
        assert_eq!(row.len(), w, "ragged test row");
        for ch in row.chars() {
            let color = palette
                .iter()
                .find(|(c, _)| *c == ch)
                .map(|(_, a)| *a)
                .unwrap_or(Argb(0));
            pixels.push(color);
        }
    }
    ArgbImage::new(w, h, pixels)
}

/// Signed shoelace area of a loop. Outer boundaries (traced with the
/// interior on the left, counter-clockwise in y-down coordinates) are
/// negative and hole boundaries are positive, so the absolute value of
/// the sum over all loops of a region equals the region's filled area.
fn area(loop_points: &[(i32, i32)]) -> i64 {
    let mut sum = 0i64;
    for i in 0..loop_points.len() {
        let (x1, y1) = loop_points[i];
        let (x2, y2) = loop_points[(i + 1) % loop_points.len()];
        sum += x1 as i64 * y2 as i64 - x2 as i64 * y1 as i64;
    }
    sum
}

#[test]
fn single_pixel_region_is_a_unit_square() {
    let img = grid_from_rows(&["A.", ".."], &[('A', Argb::from_rgba(255, 0, 0, 255))]);
    let regions = vectorize(&img, true);
    assert_eq!(regions.len(), 1);
    assert_eq!(regions[0].loops.len(), 1);
    let pts = &regions[0].loops[0].points;
    assert_eq!(area(pts).abs(), 2); // 1x1 square
}

#[test]
fn regions_are_merged_by_color_and_cover_exactly() {
    // Two separate A blocks of the same color must merge into one region
    // with two loops, and the total traced area must equal the pixel area.
    let img = grid_from_rows(
        &[
            "AA..", //
            "AA..", //
            "..AA", //
            "..AA", //
        ],
        &[('A', Argb::from_rgba(10, 20, 30, 255))],
    );
    let regions = vectorize(&img, true);
    assert_eq!(regions.len(), 1);
    assert_eq!(regions[0].loops.len(), 2);

    let total: i64 = regions[0].loops.iter().map(|l| area(&l.points)).sum();
    assert_eq!(total.abs(), 16); // 8 pixels * 2 (shoelace units)

    let unmerged = vectorize(&img, false);
    assert_eq!(unmerged.len(), 2);
}

#[test]
fn hole_is_traced_as_separate_loop() {
    // A ring of A with a B hole: A must produce two loops (outer + hole).
    let img = grid_from_rows(
        &[
            "AAAA", //
            "ABBA", //
            "ABBA", //
            "AAAA", //
        ],
        &[
            ('A', Argb::from_rgba(255, 0, 0, 255)),
            ('B', Argb::from_rgba(0, 0, 255, 255)),
        ],
    );
    let regions = vectorize(&img, true);
    let a = regions
        .iter()
        .find(|r| r.color == Argb::from_rgba(255, 0, 0, 255))
        .unwrap();
    assert_eq!(a.loops.len(), 2);
    let a_area: i64 = a.loops.iter().map(|l| area(&l.points)).sum();
    assert_eq!(a_area.abs(), 24); // 12 A pixels * 2 (outer minus hole)
}

#[test]
fn transparent_pixels_are_skipped() {
    let img = grid_from_rows(
        &[
            "A.", //
            "..", //
        ],
        &[('A', Argb::from_rgba(0, 0, 0, 0))],
    );
    let regions = vectorize(&img, true);
    assert!(regions.is_empty());
}

#[test]
fn full_image_is_a_single_rectangle() {
    let img = grid_from_rows(
        &[
            "AAAA", //
            "AAAA", //
            "AAAA", //
        ],
        &[('A', Argb::from_rgba(1, 2, 3, 255))],
    );
    let regions = vectorize(&img, true);
    assert_eq!(regions.len(), 1);
    let pts = &regions[0].loops[0].points;
    // A 4x3 rectangle has 4 corner points.
    assert_eq!(pts.len(), 4);
    assert_eq!(area(pts).abs(), 24);
}

#[test]
fn checkerboard_produces_correct_loop_count() {
    let img = grid_from_rows(
        &[
            "ABAB", //
            "BABA", //
            "ABAB", //
            "BABA", //
        ],
        &[
            ('A', Argb::from_rgba(255, 0, 0, 255)),
            ('B', Argb::from_rgba(0, 255, 0, 255)),
        ],
    );
    let regions = vectorize(&img, true);
    assert_eq!(regions.len(), 2);
    for r in &regions {
        assert_eq!(r.loops.len(), 8); // 8 isolated pixels per color
    }
}

#[test]
fn transparent_only_image_yields_empty_svg() {
    let img = ArgbImage::new(8, 8, vec![Argb(0); 64]);
    let regions = vectorize(&img, true);
    assert!(regions.is_empty());
    let svg = export(&regions, 8, 8);
    assert!(!svg.contains("<path"));
}

#[test]
fn single_pixel_loop_is_walked_from_its_top_edge() {
    // The walk starts on the top side of the first pixel, heading west,
    // and turns left at every corner.
    let img = ArgbImage::new(1, 1, vec![Argb::from_rgba(255, 0, 0, 255)]);
    let regions = vectorize(&img, true);
    assert_eq!(regions[0].loops[0].points, vec![(1, 0), (0, 0), (0, 1), (1, 1)]);
}

#[test]
fn merged_regions_come_in_strictly_increasing_colour_order() {
    let img = grid_from_rows(
        &[
            "CAB", //
            "BCA", //
            "ABC", //
        ],
        &[
            ('A', Argb::from_rgba(0, 0, 9, 255)),
            ('B', Argb::from_rgba(9, 0, 0, 255)),
            ('C', Argb::from_rgba(0, 9, 0, 255)),
        ],
    );
    let regions = vectorize(&img, true);
    assert_eq!(regions.len(), 3);
    for w in regions.windows(2) {
        assert!(w[0].color.0 < w[1].color.0);
    }
}

#[test]
fn unmerged_regions_have_one_loop_each_in_colour_order() {
    let img = grid_from_rows(
        &[
            "B.A.", //
            "....", //
            "A.B.", //
        ],
        &[
            ('A', Argb::from_rgba(0, 0, 9, 255)),
            ('B', Argb::from_rgba(9, 0, 0, 255)),
        ],
    );
    let regions = vectorize(&img, false);
    assert_eq!(regions.len(), 4);
    for r in &regions {
        assert_eq!(r.loops.len(), 1);
        assert!(r.loops[0].points.len() >= 3);
    }
    for w in regions.windows(2) {
        assert!(w[0].color.0 <= w[1].color.0);
    }
    // Loops of one colour keep the order in which the scan found them.
    assert_eq!(regions[0].loops[0].points[0], (3, 0));
    assert_eq!(regions[1].loops[0].points[0], (1, 2));
}

#[test]
fn every_boundary_edge_is_walked_once() {
    // An L-shaped region: its loop has six corners and its perimeter is
    // twelve unit edges long, each walked once.
    let img = grid_from_rows(
        &[
            "A..", //
            "A..", //
            "AAA", //
        ],
        &[('A', Argb::from_rgba(5, 5, 5, 255))],
    );
    let regions = vectorize(&img, true);
    assert_eq!(regions.len(), 1);
    assert_eq!(regions[0].loops.len(), 1);
    let pts = &regions[0].loops[0].points;
    assert_eq!(pts.len(), 6);
    let mut perimeter = 0;
    for i in 0..pts.len() {
        let (a, b) = (pts[i], pts[(i + 1) % pts.len()]);
        perimeter += (a.0 - b.0).abs() + (a.1 - b.1).abs();
    }
    assert_eq!(perimeter, 12);
    assert_eq!(area(pts).abs(), 10);
}

#[test]
fn regions_have_visible_colours_only() {
    let img = grid_from_rows(
        &[
            "AT", //
            "TB", //
        ],
        &[
            ('A', Argb::from_rgba(1, 1, 1, 255)),
            ('B', Argb::from_rgba(2, 2, 2, 1)),
            ('T', Argb::from_rgba(3, 3, 3, 0)),
        ],
    );
    let regions = vectorize(&img, true);
    assert_eq!(regions.len(), 2);
    for r in &regions {
        assert!(r.color.a() != 0);
    }
}

#[test]
fn traced_loops_close_along_an_axis() {
    // Every loop returns to its first point with a straight segment, and
    // every segment runs along an axis.
    let img = grid_from_rows(
        &[
            "AAB.", //
            "ABB.", //
            "A.BA", //
            "AAAA", //
        ],
        &[
            ('A', Argb::from_rgba(200, 0, 0, 255)),
            ('B', Argb::from_rgba(0, 0, 200, 255)),
        ],
    );
    for r in vectorize(&img, false) {
        let pts = &r.loops[0].points;
        assert!(pts.len() >= 4);
        for i in 0..pts.len() {
            let (a, b) = (pts[i], pts[(i + 1) % pts.len()]);
            assert!(a != b);
            assert!(a.0 == b.0 || a.1 == b.1, "{a:?} -> {b:?}");
        }
    }
}

#[test]
fn diagonal_neighbours_of_one_colour_share_a_vertex() {
    // Two pixels of one colour touching at a corner: both are traced, the
    // shared corner belongs to the loops of both.
    let img = grid_from_rows(&["A.", ".A"], &[('A', Argb::from_rgba(7, 7, 7, 255))]);
    let regions = vectorize(&img, true);
    assert_eq!(regions.len(), 1);
    let total: i64 = regions[0].loops.iter().map(|l| area(&l.points)).sum();
    assert_eq!(total.abs(), 4);
    assert!(regions[0].loops.iter().any(|l| l.points.contains(&(1, 1))));
}

#[test]
fn traceable_images_are_those_whose_coordinates_fit() {
    let small = ArgbImage::new(2, 2, vec![Argb(0xff00_0000); 4]);
    assert!(is_traceable(&small));
    let empty = ArgbImage::new(0, 0, Vec::new());
    assert!(is_traceable(&empty));
    let too_wide = ArgbImage::new(i32::MAX as usize, 0, Vec::new());
    assert!(!is_traceable(&too_wide));
    let widest = ArgbImage::new(i32::MAX as usize - 1, 0, Vec::new());
    assert!(is_traceable(&widest));
    let ragged = ArgbImage {
        width: 2,
        height: 2,
        pixels: vec![Argb(0); 3],
    };
    assert!(!is_traceable(&ragged));
}
