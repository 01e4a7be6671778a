use xbrztrace::xbrz_engine::{
    gradient_argb, is_scalable, pack_kernel_result, preprocess_corners, rotate_pos, scale_image_with, Argb,
    ArgbImage, BlendType, CornerBlend, CornerJudgement, DiagonalVerdict, Kernel3, Kernel4,
};

fn no_judgement(_k: Kernel3) -> CornerJudgement {
    CornerJudgement {
        e_like_g: false,
        e_like_c: false,
        e_like_i: false,
        g_like_h: false,
        h_like_i: false,
        i_like_f: false,
        f_like_c: false,
        f_nearer: false,
        shallow: false,
        steep: false,
    }
}

fn balanced(_k: Kernel4) -> DiagonalVerdict {
    DiagonalVerdict::Balanced
}

#[test]
fn channels_round_trip_through_packing() {
    let p = Argb::from_rgba(0x12, 0x34, 0x56, 0x78);
    assert_eq!(p.0, 0x7812_3456);
    assert_eq!((p.r(), p.g(), p.b(), p.a()), (0x12, 0x34, 0x56, 0x78));
    let q = Argb(0xff00_80ff);
    assert_eq!((q.r(), q.g(), q.b(), q.a()), (0x00, 0x80, 0xff, 0xff));
}

#[test]
fn image_reads_row_major() {
    let img = ArgbImage::new(3, 2, (0..6).map(Argb).collect());
    assert_eq!(img.get(0, 0), Argb(0));
    assert_eq!(img.get(2, 0), Argb(2));
    assert_eq!(img.get(0, 1), Argb(3));
    assert_eq!(img.get(2, 1), Argb(5));
}

#[test]
fn gradient_weights_by_alpha() {
    let red = Argb::from_rgba(255, 0, 0, 255);
    let blue = Argb::from_rgba(0, 0, 255, 255);
    assert_eq!(gradient_argb(1, 4, red, blue), Argb::from_rgba(63, 0, 191, 255));
    let clear = Argb::from_rgba(200, 200, 200, 0);
    let half = Argb::from_rgba(10, 20, 30, 128);
    assert_eq!(gradient_argb(2, 4, clear, half), Argb::from_rgba(10, 20, 30, 64));
    assert_eq!(gradient_argb(1, 2, clear, Argb(0)), Argb(0));
}

fn kernel(f: Argb, g: Argb, j: Argb, k: Argb) -> Kernel4 {
    let z = Argb(0);
    Kernel4 { b: z, c: z, e: z, f, g, h: z, i: z, j, k, l: z, n: z, o: z }
}

#[test]
fn flat_corners_are_never_blended() {
    let a = Argb::from_rgba(1, 0, 0, 255);
    let b = Argb::from_rgba(0, 1, 0, 255);
    let none = CornerBlend {
        f: BlendType::NoBlend,
        g: BlendType::NoBlend,
        j: BlendType::NoBlend,
        k: BlendType::NoBlend,
    };
    let v = DiagonalVerdict::AlongJg { dominant: true };
    assert_eq!(preprocess_corners(&kernel(a, a, b, b), v), none);
    assert_eq!(preprocess_corners(&kernel(a, b, a, b), v), none);
    assert_eq!(pack_kernel_result(none), 0);
}

#[test]
fn diagonal_verdicts_blend_the_opposite_corners() {
    let (a, b, c, d) = (
        Argb::from_rgba(1, 0, 0, 255),
        Argb::from_rgba(0, 1, 0, 255),
        Argb::from_rgba(0, 0, 1, 255),
        Argb::from_rgba(1, 1, 0, 255),
    );
    let k = kernel(a, b, c, d);
    let jg = preprocess_corners(&k, DiagonalVerdict::AlongJg { dominant: true });
    assert_eq!(jg.f, BlendType::Dominant);
    assert_eq!(jg.k, BlendType::Dominant);
    assert_eq!(jg.g, BlendType::NoBlend);
    assert_eq!(jg.j, BlendType::NoBlend);
    let fk = preprocess_corners(&k, DiagonalVerdict::AlongFk { dominant: false });
    assert_eq!(fk.g, BlendType::Normal);
    assert_eq!(fk.j, BlendType::Normal);
    assert_eq!(fk.f, BlendType::NoBlend);
    // f, g, j, k occupy the two-bit fields 0, 1, 2, 3.
    assert_eq!(pack_kernel_result(jg), 2 | (2 << 6));
    assert_eq!(pack_kernel_result(fk), (1 << 2) | (1 << 4));
}

#[test]
fn rotation_maps_block_positions() {
    assert_eq!(rotate_pos(0, 3, 0, 2), (0, 2));
    assert_eq!(rotate_pos(1, 3, 0, 2), (0, 0));
    assert_eq!(rotate_pos(2, 3, 0, 2), (2, 0));
    assert_eq!(rotate_pos(3, 3, 0, 2), (2, 2));
}

#[test]
fn balanced_verdicts_give_nearest_neighbour_scaling() {
    let src = ArgbImage::new(
        2,
        2,
        vec![
            Argb::from_rgba(255, 0, 0, 255),
            Argb::from_rgba(0, 255, 0, 255),
            Argb::from_rgba(0, 0, 255, 255),
            Argb::from_rgba(9, 9, 9, 128),
        ],
    );
    for factor in 2..=6u8 {
        let out = scale_image_with(&src, factor, balanced, no_judgement);
        let f = factor as usize;
        assert_eq!(out.width, 2 * f);
        assert_eq!(out.height, 2 * f);
        for y in 0..out.height {
            for x in 0..out.width {
                assert_eq!(out.get(x, y), src.get(x / f, y / f));
            }
        }
    }
}

#[test]
fn uniform_image_stays_uniform() {
    let c = Argb::from_rgba(40, 50, 60, 255);
    let src = ArgbImage::new(3, 2, vec![c; 6]);
    let out = scale_image_with(
        &src,
        4,
        |_k: Kernel4| DiagonalVerdict::AlongJg { dominant: true },
        |_k: Kernel3| CornerJudgement {
            e_like_g: true,
            e_like_c: true,
            e_like_i: true,
            g_like_h: true,
            h_like_i: true,
            i_like_f: true,
            f_like_c: true,
            f_nearer: true,
            shallow: true,
            steep: true,
        },
    );
    assert_eq!(out.width, 12);
    assert_eq!(out.height, 8);
    assert!(out.pixels.iter().all(|&p| p == c));
}

#[test]
fn empty_image_scales_to_empty() {
    let src = ArgbImage::new(0, 0, vec![]);
    let out = scale_image_with(&src, 3, balanced, no_judgement);
    assert_eq!((out.width, out.height), (0, 0));
    assert!(out.pixels.is_empty());
}

#[test]
fn scalable_inputs_need_a_supported_factor_and_room() {
    let img = ArgbImage::new(2, 2, vec![Argb(0xff00_0000); 4]);
    assert!(is_scalable(&img, 2));
    assert!(is_scalable(&img, 6));
    assert!(!is_scalable(&img, 1));
    assert!(!is_scalable(&img, 7));
    let wide = ArgbImage::new(usize::MAX / 2, 0, Vec::new());
    assert!(!is_scalable(&wide, 3));
    let flat = ArgbImage::new(usize::MAX / 4, 0, Vec::new());
    assert!(is_scalable(&flat, 2));
    let ragged = ArgbImage {
        width: 2,
        height: 2,
        pixels: vec![Argb(0); 3],
    };
    assert!(!is_scalable(&ragged, 2));
}
