use xbrztrace::svg_exporter::{export, hex_color, push_i32, write_path_data};
use xbrztrace::vectorizer::{vectorize, PathLoop, Region};
use xbrztrace::xbrz_engine::{Argb, ArgbImage};

#[test]
fn exports_simple_square() {
    let mut pixels = vec![Argb(0); 4 * 4];
    let red = Argb::from_rgba(255, 80, 80, 255);
    for y in 1..3 {
        for x in 1..3 {
            pixels[y * 4 + x] = red;
        }
    }
    let img = ArgbImage::new(4, 4, pixels);
    let regions = vectorize(&img, true);
    let svg = export(&regions, 4, 4);

    assert!(svg.starts_with(
        "<svg xmlns=\"http://www.w3.org/2000/svg\" width=\"4\" height=\"4\" viewBox=\"0 0 4 4\""
    ));
    assert!(svg.contains("fill=\"#ff5050\""));
    // The 2x2 square collapses to the four corner vertices after
    // simplification: M1 1 V3 H3 V1 Z (start, down, right, up, close).
    assert!(svg.contains("M1 1V3H3V1Z"), "unexpected path data: {svg}");
    assert!(svg.ends_with("</svg>\n"));
}

#[test]
fn opaque_color_has_no_fill_opacity() {
    let img = ArgbImage::new(1, 1, vec![Argb::from_rgba(1, 2, 3, 255)]);
    let svg = export(&vectorize(&img, true), 1, 1);
    assert!(svg.contains("fill=\"#010203\""));
    assert!(!svg.contains("fill-opacity"));
}

#[test]
fn translucent_color_gets_fill_opacity() {
    let img = ArgbImage::new(1, 1, vec![Argb::from_rgba(200, 100, 50, 128)]);
    let svg = export(&vectorize(&img, true), 1, 1);
    assert!(svg.contains("fill=\"#c86432\""));
    assert!(svg.contains("fill-opacity=\"0.5019607843137255\""));
}

#[test]
fn empty_regions_produce_minimal_document() {
    let svg = export(&[], 8, 8);
    assert_eq!(
        svg,
        "<svg xmlns=\"http://www.w3.org/2000/svg\" width=\"8\" height=\"8\" viewBox=\"0 0 8 8\" shape-rendering=\"crispEdges\">\n</svg>\n"
    );
}

#[test]
fn single_loop_path_omits_redundant_fill_rule() {
    let img = ArgbImage::new(1, 1, vec![Argb::from_rgba(1, 2, 3, 255)]);
    let svg = export(&vectorize(&img, true), 1, 1);
    assert!(svg.contains("fill=\"#010203\""));
    assert!(!svg.contains("fill-rule"), "single loop needs no fill-rule");
}

#[test]
fn multi_loop_path_keeps_evenodd_fill_rule() {
    // Two loops of one color: one region with two subpaths, which needs
    // even-odd fill to render holes correctly.
    let loop_a = PathLoop {
        points: vec![(0, 0), (2, 0), (2, 2), (0, 2)],
    };
    let loop_b = PathLoop {
        points: vec![(4, 4), (6, 4), (6, 6), (4, 6)],
    };
    let regions = vec![Region {
        color: Argb::from_rgba(0, 0, 0, 255),
        loops: vec![loop_a, loop_b],
    }];
    let svg = export(&regions, 8, 8);
    assert!(svg.contains("fill-rule=\"evenodd\""));
}

#[test]
fn merged_path_contains_multiple_loops() {
    let loop_a = PathLoop {
        points: vec![(0, 0), (2, 0), (2, 2), (0, 2)],
    };
    let loop_b = PathLoop {
        points: vec![(4, 4), (6, 4), (6, 6), (4, 6)],
    };
    let regions = vec![Region {
        color: Argb::from_rgba(0, 0, 0, 255),
        loops: vec![loop_a, loop_b],
    }];
    let svg = export(&regions, 8, 8);
    assert!(svg.contains("M0 0H2V2H0ZM4 4H6V6H4Z"));
}

#[test]
fn push_i32_handles_min_and_negative_values() {
    let mut s = String::new();
    push_i32(&mut s, 0);
    assert_eq!(s, "0");

    s.clear();
    push_i32(&mut s, 12345);
    assert_eq!(s, "12345");

    s.clear();
    push_i32(&mut s, -12345);
    assert_eq!(s, "-12345");

    s.clear();
    push_i32(&mut s, i32::MIN);
    assert_eq!(s, "-2147483648");

    s.clear();
    push_i32(&mut s, i32::MAX);
    assert_eq!(s, "2147483647");
}

#[test]
fn degenerate_loops_handled_gracefully() {
    let empty_loop = PathLoop { points: vec![] };
    let single_point_loop = PathLoop {
        points: vec![(1, 1)],
    };
    let regions = vec![Region {
        color: Argb::from_rgba(255, 0, 0, 255),
        loops: vec![empty_loop, single_point_loop],
    }];
    let svg = export(&regions, 4, 4);
    assert!(svg.contains("d=\"\""));
    assert!(svg.contains("fill=\"#ff0000\""));
}

#[test]
fn hex_color_is_lower_case_and_ignores_alpha() {
    assert_eq!(hex_color(Argb::from_rgba(0, 0, 0, 0)), "#000000");
    assert_eq!(hex_color(Argb::from_rgba(255, 171, 9, 17)), "#ffab09");
    assert_eq!(hex_color(Argb(0x12_34_56_78)), "#345678");
}

#[test]
fn path_data_uses_axis_commands_and_general_lines() {
    let mut d = String::new();
    write_path_data(
        &mut d,
        &PathLoop {
            points: vec![(0, 0), (3, 0), (3, -2), (1, 5)],
        },
    );
    assert_eq!(d, "M0 0H3V-2L1 5Z");
    let mut d = String::new();
    write_path_data(&mut d, &PathLoop { points: vec![(7, 8)] });
    assert_eq!(d, "");
}

#[test]
fn every_opacity_matches_the_shortest_decimal() {
    for a in 0u8..255 {
        let img = ArgbImage::new(1, 1, vec![Argb::from_rgba(10, 20, 30, a)]);
        let regions = vec![Region {
            color: img.pixels[0],
            loops: vec![PathLoop {
                points: vec![(0, 0), (0, 1), (1, 1), (1, 0)],
            }],
        }];
        let svg = export(&regions, 1, 1);
        let expected = format!("fill-opacity=\"{}\"", a as f64 / 255.0);
        assert!(svg.contains(&expected), "alpha {a}: {svg}");
    }
}

#[test]
fn regions_come_out_in_order() {
    let regions = vec![
        Region {
            color: Argb::from_rgba(0, 0, 1, 255),
            loops: vec![PathLoop {
                points: vec![(0, 0), (0, 1), (1, 1), (1, 0)],
            }],
        },
        Region {
            color: Argb::from_rgba(0, 0, 2, 255),
            loops: vec![PathLoop {
                points: vec![(1, 0), (1, 1), (2, 1), (2, 0)],
            }],
        },
    ];
    let svg = export(&regions, 2, 1);
    let first = svg.find("#000001").unwrap();
    let second = svg.find("#000002").unwrap();
    assert!(first < second);
    assert_eq!(svg.matches("<path ").count(), 2);
}
