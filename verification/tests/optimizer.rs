use xbrztrace::optimizer::{cross, optimize, strip_redundant_points};
use xbrztrace::vectorizer::{vectorize, PathLoop, Region};
use xbrztrace::xbrz_engine::{Argb, ArgbImage};

fn loop_points(points: &[(i32, i32)]) -> Vec<(i32, i32)> {
    points.to_vec()
}

#[test]
fn trailing_point_duplicating_start_is_removed() {
    // An explicit final vertex equal to the start: `Z` already closes.
    let mut pts = loop_points(&[(0, 0), (4, 0), (4, 4), (0, 4), (0, 0)]);
    strip_redundant_points(&mut pts);
    assert_eq!(pts, vec![(0, 0), (4, 0), (4, 4), (0, 4)]);
}

#[test]
fn consecutive_duplicates_are_removed() {
    let mut pts = loop_points(&[(0, 0), (4, 0), (4, 0), (4, 4), (0, 4)]);
    strip_redundant_points(&mut pts);
    assert_eq!(pts, vec![(0, 0), (4, 0), (4, 4), (0, 4)]);
}

#[test]
fn collinear_points_are_flattened() {
    // A square traced through every unit step: only the four corners
    // may survive.
    let mut pts = loop_points(&[
        (0, 0),
        (1, 0),
        (2, 0),
        (2, 1),
        (2, 2),
        (1, 2),
        (0, 2),
        (0, 1),
    ]);
    strip_redundant_points(&mut pts);
    assert_eq!(pts, vec![(0, 0), (2, 0), (2, 2), (0, 2)]);
}

#[test]
fn collinear_across_implied_closing_segment() {
    // The last point lies on the line between the previous point and the
    // first point; the implied closing segment makes it redundant.
    let mut pts = loop_points(&[(0, 0), (4, 0), (4, 4), (0, 4), (0, 2)]);
    strip_redundant_points(&mut pts);
    assert_eq!(pts, vec![(0, 0), (4, 0), (4, 4), (0, 4)]);
}

#[test]
fn different_length_collinear_steps_are_flattened() {
    // General collinearity (cross product), not just equal vectors: the
    // point after a long run is still redundant.
    let mut pts = loop_points(&[(0, 0), (5, 0), (5, 3), (0, 3), (0, 2)]);
    strip_redundant_points(&mut pts);
    assert_eq!(pts, vec![(0, 0), (5, 0), (5, 3), (0, 3)]);
}

#[test]
fn genuine_corners_are_kept() {
    let mut pts = loop_points(&[(0, 0), (4, 0), (4, 4), (2, 4), (2, 2), (0, 2)]);
    strip_redundant_points(&mut pts);
    // (2, 4) is a real corner (incoming E, outgoing N); nothing may move.
    assert_eq!(pts, vec![(0, 0), (4, 0), (4, 4), (2, 4), (2, 2), (0, 2)]);
}

#[test]
fn degenerate_loops_are_left_untouched() {
    for n in 0..=3 {
        let pts: Vec<(i32, i32)> = (0..n).map(|i| (i, 0)).collect();
        let mut copy = pts.clone();
        strip_redundant_points(&mut copy);
        assert_eq!(copy, pts, "loop of {n} points must be unchanged");
    }
}

#[test]
fn strip_is_idempotent() {
    let pts = vec![
        (0, 0),
        (1, 0),
        (2, 0),
        (2, 1),
        (2, 2),
        (1, 2),
        (0, 2),
        (0, 1),
        (0, 0),
    ];
    let mut once = pts.clone();
    strip_redundant_points(&mut once);
    let mut twice = once.clone();
    strip_redundant_points(&mut twice);
    assert_eq!(twice, once);
}

#[test]
fn vectorizer_output_is_already_minimal() {
    // A single isolated pixel: the tracer emits a square, the optimizer
    // must not change it.
    let img = ArgbImage::new(1, 1, vec![Argb::from_rgba(255, 0, 0, 255)]);
    let mut regions = vectorize(&img, true);
    let stats = optimize(&mut regions);
    assert_eq!(stats.points_before, 4);
    assert_eq!(stats.points_after, 4);
    assert_eq!(regions[0].loops[0].points.len(), 4);
}

#[test]
fn checkerboard_loops_are_untouched_by_optimize() {
    // 4x4 checkerboard: 8 loops per color, each already a unit square.
    let mut pixels = vec![Argb(0); 16];
    for y in 0..4 {
        for x in 0..4 {
            if (x + y) % 2 == 0 {
                pixels[y * 4 + x] = Argb::from_rgba(255, 0, 0, 255);
            } else {
                pixels[y * 4 + x] = Argb::from_rgba(0, 255, 0, 255);
            }
        }
    }
    let img = ArgbImage::new(4, 4, pixels);
    let mut regions = vectorize(&img, true);
    let stats = optimize(&mut regions);
    assert_eq!(stats.loops, 16);
    assert_eq!(stats.points_before, stats.points_after);
    for r in &regions {
        for l in &r.loops {
            assert_eq!(l.points.len(), 4);
        }
    }
}

#[test]
fn optimize_aggregates_stats() {
    let mut pixels = vec![Argb(0); 8 * 8];
    let red = Argb::from_rgba(255, 0, 0, 255);
    for y in 1..4 {
        for x in 1..4 {
            pixels[y * 8 + x] = red;
        }
    }
    let img = ArgbImage::new(8, 8, pixels);
    let mut regions = vectorize(&img, true);
    let stats = optimize(&mut regions);
    assert_eq!(stats.loops, 1);
    assert_eq!(stats.points_before, 4);
    assert_eq!(stats.points_after, 4);
}

#[test]
fn stripping_never_grows_and_keeps_vertices() {
    let pts = vec![(0, 0), (3, 0), (3, 0), (6, 0), (6, 6), (0, 6), (0, 3), (0, 0)];
    let mut out = pts.clone();
    strip_redundant_points(&mut out);
    assert!(out.len() <= pts.len());
    for p in &out {
        assert!(pts.contains(p), "{p:?} is not an input vertex");
    }
    assert_eq!(out, vec![(0, 0), (6, 0), (6, 6), (0, 6)]);
}

#[test]
fn repeats_left_by_flattening_are_dropped() {
    // Flattening drops the spike at (1,2) and leaves (2,0) twice in a row;
    // the repeat goes in the same call, so stripping again changes nothing.
    let pts = vec![(2, 0), (1, 1), (0, 1), (2, 0), (1, 2), (1, 2)];
    let mut once = pts.clone();
    strip_redundant_points(&mut once);
    assert_eq!(once, vec![(1, 1), (0, 1), (2, 0)]);
    let mut twice = once.clone();
    strip_redundant_points(&mut twice);
    assert_eq!(twice, once);

    let mut spike = vec![(0, 0), (1, 0), (0, 0), (0, 1), (1, 1)];
    strip_redundant_points(&mut spike);
    assert_eq!(spike, vec![(0, 0), (0, 1), (1, 1)]);
    let mut again = spike.clone();
    strip_redundant_points(&mut again);
    assert_eq!(again, spike);
}

#[test]
fn stripping_reaches_a_fixpoint_on_noise() {
    let mut state: u64 = 12345;
    for _ in 0..500 {
        let mut pts = Vec::new();
        state = state.wrapping_mul(6364136223846793005).wrapping_add(1442695040888963407);
        let n = 1 + (state >> 60) as usize;
        for _ in 0..n {
            state = state.wrapping_mul(6364136223846793005).wrapping_add(1442695040888963407);
            pts.push((((state >> 40) % 4) as i32, ((state >> 50) % 4) as i32));
        }
        let mut once = pts.clone();
        strip_redundant_points(&mut once);
        let mut twice = once.clone();
        strip_redundant_points(&mut twice);
        assert_eq!(twice, once, "from {pts:?}");
        let m = once.len();
        if m > 3 && once != pts {
            for i in 0..m {
                assert_ne!(once[i], once[(i + m - 1) % m], "{once:?}");
            }
        }
    }
}

#[test]
fn cross_product_values() {
    assert_eq!(cross((1, 0), (0, 1)), 1);
    assert_eq!(cross((0, 1), (1, 0)), -1);
    assert_eq!(cross((2, 4), (1, 2)), 0);
    assert_eq!(
        cross((i32::MAX, i32::MIN), (i32::MIN, i32::MAX)),
        (i32::MAX as i64) * (i32::MAX as i64) - (i32::MIN as i64) * (i32::MIN as i64)
    );
}

#[test]
fn optimize_keeps_colours_and_loop_counts() {
    let mut regions = vec![
        Region {
            color: Argb::from_rgba(1, 2, 3, 255),
            loops: vec![
                PathLoop { points: vec![(0, 0), (1, 0), (2, 0), (2, 2), (0, 2)] },
                PathLoop { points: vec![(5, 5)] },
            ],
        },
        Region {
            color: Argb::from_rgba(9, 9, 9, 9),
            loops: vec![PathLoop { points: vec![(0, 0), (0, 0), (4, 0), (4, 4), (0, 4)] }],
        },
    ];
    let stats = optimize(&mut regions);
    assert_eq!(stats.loops, 3);
    assert_eq!(stats.points_before, 11);
    assert_eq!(stats.points_after, 9);
    assert_eq!(regions[0].color, Argb::from_rgba(1, 2, 3, 255));
    assert_eq!(regions[0].loops[0].points, vec![(0, 0), (2, 0), (2, 2), (0, 2)]);
    assert_eq!(regions[0].loops[1].points, vec![(5, 5)]);
    assert_eq!(regions[1].loops[0].points, vec![(0, 0), (4, 0), (4, 4), (0, 4)]);
}

fn grid_from_rows(rows: &[&str], palette: &[(char, Argb)]) -> ArgbImage {
    let h = rows.len();
    let w = rows[0].len();
    let mut pixels = Vec::with_capacity(w * h);
    for row in rows {
        for ch in row.chars() {
            let color = palette
                .iter()
                .find(|(c, _)| *c == ch)
                .map(|(_, a)| *a)
                .unwrap_or(Argb(0));
            pixels.push(color);
        }
    }
    ArgbImage::new(w, h, pixels)
}

#[test]
fn optimize_leaves_every_traced_loop_as_it_is() {
    let palette = [
        ('A', Argb::from_rgba(255, 0, 0, 255)),
        ('B', Argb::from_rgba(0, 0, 255, 255)),
        ('C', Argb::from_rgba(0, 255, 0, 128)),
    ];
    let images = [
        grid_from_rows(&["AAAA", "ABBA", "ABBA", "AAAA"], &palette),
        grid_from_rows(&["AB.", "BA.", "..A"], &palette),
        grid_from_rows(&["AAA.C", "A.A.C", "AAACC", "B...C"], &palette),
        grid_from_rows(&["A.A.A", ".A.A.", "A.A.A"], &palette),
    ];
    for img in &images {
        for merge in [true, false] {
            let traced = vectorize(img, merge);
            let mut optimized = traced.clone();
            let stats = optimize(&mut optimized);
            assert_eq!(optimized, traced);
            assert_eq!(stats.points_before, stats.points_after);
        }
    }
}

#[test]
fn fully_degenerate_loop_is_left_untouched() {
    let mut pts = vec![(0, 0); 5];
    strip_redundant_points(&mut pts);
    assert_eq!(pts, vec![(0, 0); 5]);
    // A loop that deduplicates to two points is degenerate too.
    let mut two = vec![(0, 0), (1, 0), (1, 0), (0, 0), (0, 0)];
    strip_redundant_points(&mut two);
    assert_eq!(two, vec![(0, 0), (1, 0), (1, 0), (0, 0), (0, 0)]);
}

#[test]
fn loops_with_a_repeated_vertex_are_stripped_idempotently() {
    let mut once = vec![(0, 0), (2, 0), (1, 1), (2, 2), (0, 2), (1, 1)];
    strip_redundant_points(&mut once);
    let mut twice = once.clone();
    strip_redundant_points(&mut twice);
    assert_eq!(twice, once);
}

/// Even-odd fill of one loop at the centre of pixel `(x, y)`, counting the
/// vertical segments right of the centre that span its row.
fn fills(points: &[(i32, i32)], x: i32, y: i32) -> bool {
    let n = points.len();
    let mut crossings = 0;
    for i in 0..n {
        let (a, b) = (points[i], points[(i + 1) % n]);
        if a.0 == b.0 && a.0 > x && a.1.min(b.1) <= y && y + 1 <= a.1.max(b.1) {
            crossings += 1;
        }
    }
    crossings % 2 == 1
}

#[test]
fn stripping_a_spike_keeps_the_filled_pixels() {
    // A spike out and back along (5,5)-(9,5) is dropped, and the copy of
    // (5,5) it leaves goes with it; the vertical segment (5,5)-(5,0) stays.
    let before = vec![(0, 0), (5, 5), (9, 5), (5, 5), (5, 0), (2, -3)];
    let mut after = before.clone();
    strip_redundant_points(&mut after);
    assert_eq!(after, vec![(0, 0), (5, 5), (5, 0), (2, -3)]);
    for y in -4..7 {
        for x in -1..10 {
            assert_eq!(fills(&before, x, y), fills(&after, x, y), "({x},{y})");
        }
    }
}

#[test]
fn stripping_noise_keeps_the_filled_pixels() {
    let mut state: u64 = 987654321;
    for _ in 0..300 {
        let mut pts = Vec::new();
        state = state.wrapping_mul(6364136223846793005).wrapping_add(1442695040888963407);
        let n = 1 + (state >> 60) as usize;
        for _ in 0..n {
            state = state.wrapping_mul(6364136223846793005).wrapping_add(1442695040888963407);
            pts.push((((state >> 40) % 5) as i32, ((state >> 50) % 5) as i32));
        }
        let mut after = pts.clone();
        strip_redundant_points(&mut after);
        for y in -1..6 {
            for x in -1..6 {
                assert_eq!(fills(&pts, x, y), fills(&after, x, y), "{pts:?} -> {after:?} at ({x},{y})");
            }
        }
    }
}
