//! Integer-zoom detection and dezoom (downscale) for pre-scaled pixel art.
use vstd::prelude::*;
use crate::xbrz_engine::{Argb, ArgbImage, lemma_index_in_bounds};
use vstd::arithmetic::div_mod::{lemma_fundamental_div_mod, lemma_fundamental_div_mod_converse};

verus! {

/// Result of integer-zoom detection.
#[derive(Clone, Copy, Debug, PartialEq, Eq, Structural)]
pub struct ZoomInfo {
    /// The detected integer zoom factor (2, 3, 4, etc.), or 1 if not zoomed.
    pub factor: u8,
    /// Whether the image appears to be integer-zoomed (factor > 1).
    pub is_zoomed: bool,
}

/// `img` is a nearest-neighbour `f`-fold enlargement: both dimensions are
/// multiples of `f` and every pixel equals the top-left pixel of its
/// `f x f` block.
pub open spec fn is_zoom_of(img: ArgbImage, f: int) -> bool {
    &&& (img.width as int) % f == 0
    &&& (img.height as int) % f == 0
    &&& forall|x: int, y: int|
        0 <= x < img.width && 0 <= y < img.height ==> #[trigger] img.at(x, y) == img.at(
            (x / f) * f,
            (y / f) * f,
        )
}

/// The largest factor in 2..=6 of which `img` is a zoom, or 1.
pub open spec fn zoom_factor(img: ArgbImage) -> u8 {
    if is_zoom_of(img, 6) {
        6
    } else if is_zoom_of(img, 5) {
        5
    } else if is_zoom_of(img, 4) {
        4
    } else if is_zoom_of(img, 3) {
        3
    } else if is_zoom_of(img, 2) {
        2
    } else {
        1
    }
}

proof fn lemma_split(i: int, w: int)
    requires
        0 <= i,
        0 < w,
    ensures
        0 <= i % w < w,
        0 <= i / w,
        (i / w) * w + i % w == i,
{
    lemma_fundamental_div_mod(i, w);
    assert(w * (i / w) == (i / w) * w) by (nonlinear_arith);
    assert(0 <= i / w) by (nonlinear_arith)
        requires
            0 <= i,
            0 < w,
    ;
}

/// Downscale an image by an integer factor using nearest-neighbor (top-left
/// pixel of each block).
pub fn dezoom(img: &ArgbImage, factor: u8) -> (out: ArgbImage)
    requires
        img.wf(),
        factor > 1,
        img.width % (factor as usize) == 0,
        img.height % (factor as usize) == 0,
    ensures
        out.wf(),
        out.width == img.width / (factor as usize),
        out.height == img.height / (factor as usize),
        forall|i: int|
            0 <= i < out.pixels@.len() ==> #[trigger] out.pixels@[i] == img.at(
                (i % out.width as int) * factor,
                (i / out.width as int) * factor,
            ),
{
    let f = factor as usize;
    let total = img.pixels.len();
    let small_w = img.width / f;
    let small_h = img.height / f;
    assert(small_w * small_h <= img.width * img.height) by (nonlinear_arith)
        requires
            small_w == img.width / f,
            small_h == img.height / f,
            f > 1,
    ;
    let n = small_w * small_h;
    let mut pixels: Vec<Argb> = Vec::new();
    let mut i: usize = 0;
    while i < n
        invariant
            i <= n,
            n == small_w * small_h,
            small_w == img.width / f,
            small_h == img.height / f,
            f == factor,
            f > 1,
            img.wf(),
            total == img.pixels@.len(),
            pixels@.len() == i,
            forall|j: int|
                0 <= j < i ==> #[trigger] pixels@[j] == img.at(
                    (j % small_w as int) * f,
                    (j / small_w as int) * f,
                ),
        decreases n - i,
    {
        assert(small_w > 0) by (nonlinear_arith)
            requires
                i < n,
                n == small_w * small_h,
        ;
        let x = i % small_w;
        let y = i / small_w;
        proof {
            lemma_split(i as int, small_w as int);
            assert(y < small_h) by (nonlinear_arith)
                requires
                    y * small_w + x == i,
                    i < n,
                    n == small_w * small_h,
                    0 <= x,
            ;
            assert(x * f < img.width && y * f < img.height) by (nonlinear_arith)
                requires
                    x < small_w,
                    y < small_h,
                    small_w == img.width / f,
                    small_h == img.height / f,
                    f > 1,
            ;
            lemma_index_in_bounds((x * f) as int, (y * f) as int, img.width as int, img.height as int);
            assert(img.pixels@.len() <= usize::MAX);
        }
        pixels.push(img.pixels[(y * f) * img.width + x * f]);
        i += 1;
    }
    ArgbImage::new(small_w, small_h, pixels)
}

/// Does the `f`-fold nearest-neighbour enlargement of the `f`-fold
/// reduction of `img` give back `img`?
fn matches_zoom(img: &ArgbImage, f: usize) -> (r: bool)
    requires
        img.wf(),
        2 <= f <= 6,
    ensures
        r == is_zoom_of(*img, f as int),
{
    if img.width % f != 0 || img.height % f != 0 {
        return false;
    }
    let small = dezoom(img, f as u8);
    let (w, h) = (img.width, img.height);
    let total = img.pixels.len();
    let small_total = small.pixels.len();
    let n = w * h;
    let mut i: usize = 0;
    while i < n
        invariant
            i <= n,
            n == w * h,
            w == img.width,
            h == img.height,
            img.wf(),
            small_total == small.pixels@.len(),
            2 <= f <= 6,
            w % f == 0,
            h % f == 0,
            small.wf(),
            small.width == w / f,
            small.height == h / f,
            forall|j: int|
                0 <= j < small.pixels@.len() ==> #[trigger] small.pixels@[j] == img.at(
                    (j % small.width as int) * f,
                    (j / small.width as int) * f,
                ),
            forall|x: int, y: int|
                0 <= x < w && 0 <= y < h && y * w + x < i ==> #[trigger] img.at(x, y) == img.at(
                    (x / f as int) * f,
                    (y / f as int) * f,
                ),
        decreases n - i,
    {
        let x = i % w;
        let y = i / w;
        proof {
            lemma_split(i as int, w as int);
            assert(y < h) by (nonlinear_arith)
                requires
                    y * w + x == i,
                    i < n,
                    n == w * h,
                    0 <= x,
            ;
        }
        let bx = x / f;
        let by = y / f;
        let sw = small.width;
        proof {
            assert(bx < sw && by < small.height) by (nonlinear_arith)
                requires
                    x < w,
                    y < h,
                    sw == w / f,
                    small.height == h / f,
                    w % f == 0,
                    h % f == 0,
                    bx == x / f,
                    by == y / f,
                    f > 1,
            ;
            lemma_index_in_bounds(bx as int, by as int, sw as int, small.height as int);
            lemma_fundamental_div_mod_converse((by * sw + bx) as int, sw as int, by as int, bx as int);
            lemma_index_in_bounds(x as int, y as int, w as int, h as int);
        }
        let src_px = small.pixels[by * sw + bx];
        if src_px != img.pixels[y * w + x] {
            assert(img.at(x as int, y as int) != img.at((x / f) * f, (y / f) * f));
            return false;
        }
        proof {
            assert forall|x2: int, y2: int|
                0 <= x2 < w && 0 <= y2 < h && y2 * w + x2 < i + 1 implies #[trigger] img.at(x2, y2)
                == img.at((x2 / f as int) * f, (y2 / f as int) * f) by {
                if y2 * w + x2 == i {
                    lemma_fundamental_div_mod_converse(i as int, w as int, y2, x2);
                }
            }
        }
        i += 1;
    }
    proof {
        assert forall|x: int, y: int| 0 <= x < w && 0 <= y < h implies #[trigger] img.at(x, y)
            == img.at((x / f as int) * f, (y / f as int) * f) by {
            lemma_index_in_bounds(x, y, w as int, h as int);
        }
    }
    true
}

/// Detect if an image appears to be integer-zoomed (scaled up by an integer
/// factor using nearest-neighbor).
///
/// Checks factors 2 through 6. Returns the largest factor that produces a
/// perfect match when the downscaled image is upscaled back to the input
/// dimensions using nearest-neighbor.
pub fn detect_integer_zoom(img: &ArgbImage) -> (info: ZoomInfo)
    requires
        img.wf(),
    ensures
        info.factor == zoom_factor(*img),
        info.is_zoomed == (info.factor > 1),
{
    let mut factor: usize = 6;
    while factor >= 2
        invariant
            2 <= factor + 1 <= 7,
            img.wf(),
            forall|f: int| factor < f <= 6 ==> !is_zoom_of(*img, f),
        decreases factor,
    {
        if matches_zoom(img, factor) {
            return ZoomInfo { factor: factor as u8, is_zoomed: true };
        }
        factor -= 1;
    }
    ZoomInfo { factor: 1, is_zoomed: false }
}

/// Dezooming undoes a zoom: when `img` is an `f`-fold nearest-neighbour
/// enlargement and `out` is what [`dezoom`] makes of it, every pixel of
/// `img` is the pixel of `out` whose block it lies in.
pub proof fn law_dezoom_inverts_zoom(img: ArgbImage, f: int, out: ArgbImage)
    requires
        img.wf(),
        f > 1,
        is_zoom_of(img, f),
        out.wf(),
        out.width == (img.width as int) / f,
        out.height == (img.height as int) / f,
        forall|i: int|
            0 <= i < out.pixels@.len() ==> #[trigger] out.pixels@[i] == img.at(
                (i % out.width as int) * f,
                (i / out.width as int) * f,
            ),
    ensures
        forall|x: int, y: int|
            0 <= x < img.width && 0 <= y < img.height ==> #[trigger] img.at(x, y) == out.at(x / f, y / f),
{
    assert forall|x: int, y: int| 0 <= x < img.width && 0 <= y < img.height implies #[trigger] img.at(x, y)
        == out.at(x / f, y / f) by {
        let ow = out.width as int;
        let oh = out.height as int;
        lemma_fundamental_div_mod(img.width as int, f);
        lemma_fundamental_div_mod(img.height as int, f);
        lemma_split(x, f);
        lemma_split(y, f);
        // x / f < ow and y / f < oh.
        assert(x / f < ow) by (nonlinear_arith)
            requires
                0 <= x < img.width,
                img.width == f * ow,
                f > 0,
                x == (x / f) * f + x % f,
                0 <= x % f < f,
        ;
        assert(y / f < oh) by (nonlinear_arith)
            requires
                0 <= y < img.height,
                img.height == f * oh,
                f > 0,
                y == (y / f) * f + y % f,
                0 <= y % f < f,
        ;
        let i = (y / f) * ow + x / f;
        lemma_index_in_bounds(x / f, y / f, ow, oh);
        lemma_fundamental_div_mod_converse(i, ow, y / f, x / f);
        assert(out.at(x / f, y / f) == out.pixels@[i]);
        assert(img.at(x, y) == img.at((x / f) * f, (y / f) * f));
    }
}

} // verus!
