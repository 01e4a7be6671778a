//! xBRZ pixel-art scaling, 2x to 6x, with alpha.
//!
//! Per input pixel: the 4x4 neighbourhood decides, for each of the pixel's
//! four corners, whether it is blended and how strongly; then the 3x3
//! neighbourhood is evaluated in four rotations, and each blended corner
//! applies the scale's weight table (a line, steep or shallow, a diagonal,
//! or a rounded corner) to the subpixels next to it. The colour comparisons
//! themselves are asked of the caller, as verdicts and judgements.
use vstd::prelude::*;
use vstd::arithmetic::div_mod::{lemma_fundamental_div_mod, lemma_fundamental_div_mod_converse};

verus! {

/// A 32-bit ARGB pixel, alpha in the most significant byte.
#[derive(Clone, Copy, PartialEq, Eq, Structural, Hash, Debug)]
pub struct Argb(pub u32);

/// The packed value of the four channels.
pub open spec fn packed(r: u8, g: u8, b: u8, a: u8) -> u32 {
    (a * 0x100_0000 + r * 0x1_0000 + g * 0x100 + b) as u32
}

impl Argb {
    /// Alpha channel (bits 24..32).
    pub open spec fn alpha(self) -> u32 {
        self.0 / 0x100_0000
    }

    /// Red channel (bits 16..24).
    pub open spec fn red(self) -> u32 {
        (self.0 / 0x1_0000) % 0x100
    }

    /// Green channel (bits 8..16).
    pub open spec fn green(self) -> u32 {
        (self.0 / 0x100) % 0x100
    }

    /// Blue channel (bits 0..8).
    pub open spec fn blue(self) -> u32 {
        self.0 % 0x100
    }

    pub fn from_rgba(r: u8, g: u8, b: u8, a: u8) -> (p: Argb)
        ensures
            p.0 == packed(r, g, b, a),
            p.alpha() == a,
            p.red() == r,
            p.green() == g,
            p.blue() == b,
    {
        let v: u32 = ((a as u32) << 24) | ((r as u32) << 16) | ((g as u32) << 8) | b as u32;
        assert(v == (a * 0x100_0000 + r * 0x1_0000 + g * 0x100 + b) as u32) by (bit_vector)
            requires
                v == ((a as u32) << 24) | ((r as u32) << 16) | ((g as u32) << 8) | b as u32,
        ;
        assert(v / 0x100_0000 == a && (v / 0x1_0000) % 0x100 == r && (v / 0x100) % 0x100 == g
            && v % 0x100 == b) by (bit_vector)
            requires
                v == ((a as u32) << 24) | ((r as u32) << 16) | ((g as u32) << 8) | b as u32,
        ;
        Argb(v)
    }

    pub fn a(self) -> (v: u32)
        ensures
            v == self.alpha(),
            v < 0x100,
    {
        let x = self.0;
        assert(x >> 24 == x / 0x100_0000 && x >> 24 < 0x100) by (bit_vector);
        x >> 24
    }

    pub fn r(self) -> (v: u32)
        ensures
            v == self.red(),
            v < 0x100,
    {
        let x = self.0;
        assert((x >> 16) & 0xff == (x / 0x1_0000) % 0x100) by (bit_vector);
        (x >> 16) & 0xff
    }

    pub fn g(self) -> (v: u32)
        ensures
            v == self.green(),
            v < 0x100,
    {
        let x = self.0;
        assert((x >> 8) & 0xff == (x / 0x100) % 0x100) by (bit_vector);
        (x >> 8) & 0xff
    }

    pub fn b(self) -> (v: u32)
        ensures
            v == self.blue(),
            v < 0x100,
    {
        let x = self.0;
        assert(x & 0xff == x % 0x100) by (bit_vector);
        x & 0xff
    }
}

/// A row-major grid of pixels.
#[derive(Clone, Debug)]
pub struct ArgbImage {
    pub width: usize,
    pub height: usize,
    pub pixels: Vec<Argb>,
}

impl ArgbImage {
    /// The pixel buffer holds exactly `width * height` pixels.
    pub open spec fn wf(&self) -> bool {
        self.pixels@.len() == self.width * self.height
    }

    /// The pixel at column `x`, row `y`.
    pub open spec fn at(&self, x: int, y: int) -> Argb {
        self.pixels@[y * self.width + x]
    }

    pub fn new(width: usize, height: usize, pixels: Vec<Argb>) -> (img: ArgbImage)
        requires
            pixels@.len() == width * height,
        ensures
            img.width == width,
            img.height == height,
            img.pixels@ == pixels@,
            img.wf(),
    {
        ArgbImage { width, height, pixels }
    }

    pub fn get(&self, x: usize, y: usize) -> (p: Argb)
        requires
            y * self.width + x < self.pixels@.len(),
        ensures
            p == self.at(x as int, y as int),
    {
        let n = self.pixels.len();
        assert(y * self.width <= n);
        self.pixels[y * self.width + x]
    }
}

// ---------------------------------------------------------------------------
// Corner preprocessing
// ---------------------------------------------------------------------------

/// How strongly a pixel corner is blended.
#[derive(Clone, Copy, PartialEq, Eq, Structural, Debug)]
pub enum BlendType {
    NoBlend,
    Normal,
    Dominant,
}

/// The two-bit code of a blend type.
pub open spec fn blend_code(b: BlendType) -> int {
    match b {
        BlendType::NoBlend => 0,
        BlendType::Normal => 1,
        BlendType::Dominant => 2,
    }
}

/// The 4x4 neighbourhood of an input pixel `f`, reduced to the twelve pixels
/// that the corner classification reads. `f, g, j, k` meet at the
/// bottom-right corner of `f`:
///
/// ```text
///    . b c .
///    e f g h
///    i j k l
///    . n o .
/// ```
#[derive(Clone, Copy, PartialEq, Eq, Structural, Debug)]
pub struct Kernel4 {
    pub b: Argb,
    pub c: Argb,
    pub e: Argb,
    pub f: Argb,
    pub g: Argb,
    pub h: Argb,
    pub i: Argb,
    pub j: Argb,
    pub k: Argb,
    pub l: Argb,
    pub n: Argb,
    pub o: Argb,
}

/// Outcome of comparing the weighted colour distances along the two
/// diagonals `J-G` and `F-K` of the corner under evaluation.
#[derive(Clone, Copy, PartialEq, Eq, Structural, Debug)]
pub enum DiagonalVerdict {
    /// Both diagonals are equally close (no blending).
    Balanced,
    /// The `J-G` diagonal is the closer one: an edge runs along it and
    /// corners `F` and `K` are blended; `dominant` if the difference exceeds
    /// the dominance ratio.
    AlongJg { dominant: bool },
    /// The `F-K` diagonal is the closer one: corners `J` and `G` are blended.
    AlongFk { dominant: bool },
}

/// Blend decisions for the four pixels `f, g, j, k` that meet at a corner.
#[derive(Clone, Copy, PartialEq, Eq, Structural, Debug)]
pub struct CornerBlend {
    pub f: BlendType,
    pub g: BlendType,
    pub j: BlendType,
    pub k: BlendType,
}

/// Two opposite sides of the corner carry one colour each: nothing to blend,
/// whatever the colour distances are.
pub open spec fn corner_is_flat(k: Kernel4) -> bool {
    (k.f == k.g && k.j == k.k) || (k.f == k.j && k.g == k.k)
}

pub open spec fn strength(dominant: bool) -> BlendType {
    if dominant {
        BlendType::Dominant
    } else {
        BlendType::Normal
    }
}

/// The corner classification of the xBRZ preprocessing step, given the
/// diagonal comparison.
pub open spec fn spec_preprocess(k: Kernel4, v: DiagonalVerdict) -> CornerBlend {
    let none = CornerBlend {
        f: BlendType::NoBlend,
        g: BlendType::NoBlend,
        j: BlendType::NoBlend,
        k: BlendType::NoBlend,
    };
    if corner_is_flat(k) {
        none
    } else {
        match v {
            DiagonalVerdict::Balanced => none,
            DiagonalVerdict::AlongJg { dominant } => CornerBlend {
                f: if k.f != k.g && k.f != k.j {
                    strength(dominant)
                } else {
                    BlendType::NoBlend
                },
                k: if k.k != k.j && k.k != k.g {
                    strength(dominant)
                } else {
                    BlendType::NoBlend
                },
                ..none
            },
            DiagonalVerdict::AlongFk { dominant } => CornerBlend {
                j: if k.j != k.f && k.j != k.k {
                    strength(dominant)
                } else {
                    BlendType::NoBlend
                },
                g: if k.g != k.f && k.g != k.k {
                    strength(dominant)
                } else {
                    BlendType::NoBlend
                },
                ..none
            },
        }
    }
}

fn strength_of(dominant: bool) -> (b: BlendType)
    ensures
        b == strength(dominant),
{
    if dominant {
        BlendType::Dominant
    } else {
        BlendType::Normal
    }
}

/// Is the corner of `k` one whose classification needs a diagonal verdict?
pub fn needs_verdict(k: &Kernel4) -> (r: bool)
    ensures
        r == !corner_is_flat(*k),
{
    !((k.f == k.g && k.j == k.k) || (k.f == k.j && k.g == k.k))
}

/// Classify the corner between `F, G, J, K` given the verdict on its
/// diagonals. An edge running along the J-G diagonal blends corners F and K;
/// an edge along the F-K diagonal blends J and G.
pub fn preprocess_corners(k: &Kernel4, v: DiagonalVerdict) -> (r: CornerBlend)
    ensures
        r == spec_preprocess(*k, v),
{
    let mut result = CornerBlend {
        f: BlendType::NoBlend,
        g: BlendType::NoBlend,
        j: BlendType::NoBlend,
        k: BlendType::NoBlend,
    };
    if (k.f == k.g && k.j == k.k) || (k.f == k.j && k.g == k.k) {
        return result;
    }
    match v {
        DiagonalVerdict::Balanced => {},
        DiagonalVerdict::AlongJg { dominant } => {
            if k.f != k.g && k.f != k.j {
                result.f = strength_of(dominant);
            }
            if k.k != k.j && k.k != k.g {
                result.k = strength_of(dominant);
            }
        },
        DiagonalVerdict::AlongFk { dominant } => {
            if k.j != k.f && k.j != k.k {
                result.j = strength_of(dominant);
            }
            if k.g != k.f && k.g != k.k {
                result.g = strength_of(dominant);
            }
        },
    }
    result
}

/// The two-bit field `i` (0..4) of a blend-info byte.
pub open spec fn field(b: u8, i: int) -> int {
    if i == 0 {
        (b % 4) as int
    } else if i == 1 {
        ((b / 4) % 4) as int
    } else if i == 2 {
        ((b / 16) % 4) as int
    } else {
        (b / 64) as int
    }
}

/// The byte that packs a corner's four decisions: bits 0-1 = f, 2-3 = g,
/// 4-5 = j, 6-7 = k.
pub open spec fn spec_pack(r: CornerBlend) -> u8 {
    (blend_code(r.f) + 4 * blend_code(r.g) + 16 * blend_code(r.j) + 64 * blend_code(r.k)) as u8
}

fn code_of(b: BlendType) -> (c: u8)
    ensures
        c == blend_code(b),
{
    match b {
        BlendType::NoBlend => 0,
        BlendType::Normal => 1,
        BlendType::Dominant => 2,
    }
}

/// Pack the four corner decisions of a kernel into a byte:
/// bits 0-1 = f, 2-3 = g, 4-5 = j, 6-7 = k.
pub fn pack_kernel_result(r: CornerBlend) -> (b: u8)
    ensures
        b == spec_pack(r),
        field(b, 0) == blend_code(r.f),
        field(b, 1) == blend_code(r.g),
        field(b, 2) == blend_code(r.j),
        field(b, 3) == blend_code(r.k),
{
    let f = code_of(r.f);
    let g = code_of(r.g);
    let j = code_of(r.j);
    let k = code_of(r.k);
    let b: u8 = f | (g << 2) | (j << 4) | (k << 6);
    assert(b == f + 4 * g + 16 * j + 64 * k && b % 4 == f && (b / 4) % 4 == g && (b / 16) % 4 == j
        && b / 64 == k) by (bit_vector)
        requires
            f < 3,
            g < 3,
            j < 3,
            k < 3,
            b == f | (g << 2) | (j << 4) | (k << 6),
    ;
    b
}

// ---------------------------------------------------------------------------
// Neighbourhoods
// ---------------------------------------------------------------------------

/// Row-major index arithmetic stays inside the pixel buffer.
pub proof fn lemma_index_in_bounds(x: int, y: int, w: int, h: int)
    requires
        0 <= x < w,
        0 <= y < h,
    ensures
        0 <= y * w + x < w * h,
        y * w <= y * w + x,
{
    assert(0 <= y * w) by (nonlinear_arith)
        requires
            0 <= y,
            0 <= w,
    ;
    assert(y * w + x < w * h) by (nonlinear_arith)
        requires
            0 <= x < w,
            0 <= y < h,
    ;
}

pub open spec fn lower(v: int) -> int {
    if v > 0 {
        v - 1
    } else {
        0
    }
}

pub open spec fn upper(v: int, limit: int) -> int {
    if v + 1 < limit {
        v + 1
    } else {
        limit - 1
    }
}

/// The 4x4 kernel of pixel `(x, y)`, border reads clamped into the image.
pub open spec fn spec_kernel4(img: ArgbImage, x: int, y: int) -> Kernel4 {
    let (w, h) = (img.width as int, img.height as int);
    let ym1 = lower(y);
    let yp1 = upper(y, h);
    let yp2 = upper(yp1, h);
    let xm1 = lower(x);
    let xp1 = upper(x, w);
    let xp2 = upper(xp1, w);
    Kernel4 {
        b: img.at(x, ym1),
        c: img.at(xp1, ym1),
        e: img.at(xm1, y),
        f: img.at(x, y),
        g: img.at(xp1, y),
        h: img.at(xp2, y),
        i: img.at(xm1, yp1),
        j: img.at(x, yp1),
        k: img.at(xp1, yp1),
        l: img.at(xp2, yp1),
        n: img.at(x, yp2),
        o: img.at(xp1, yp2),
    }
}

/// The 3x3 neighbourhood of the pixel `e`, rows top to bottom:
///
/// ```text
///    a b c
///    d e f
///    g h i
/// ```
#[derive(Clone, Copy, PartialEq, Eq, Structural, Debug)]
pub struct Kernel3 {
    pub a: Argb,
    pub b: Argb,
    pub c: Argb,
    pub d: Argb,
    pub e: Argb,
    pub f: Argb,
    pub g: Argb,
    pub h: Argb,
    pub i: Argb,
}

/// The 3x3 kernel of pixel `(x, y)`, border reads clamped into the image.
pub open spec fn spec_kernel3(img: ArgbImage, x: int, y: int) -> Kernel3 {
    let (w, h) = (img.width as int, img.height as int);
    let ym1 = lower(y);
    let yp1 = upper(y, h);
    let xm1 = lower(x);
    let xp1 = upper(x, w);
    Kernel3 {
        a: img.at(xm1, ym1),
        b: img.at(x, ym1),
        c: img.at(xp1, ym1),
        d: img.at(xm1, y),
        e: img.at(x, y),
        f: img.at(xp1, y),
        g: img.at(xm1, yp1),
        h: img.at(x, yp1),
        i: img.at(xp1, yp1),
    }
}

fn dec(v: usize) -> (r: usize)
    ensures
        r == lower(v as int),
{
    if v > 0 {
        v - 1
    } else {
        0
    }
}

fn inc(v: usize, limit: usize) -> (r: usize)
    requires
        v < limit,
    ensures
        r == upper(v as int, limit as int),
        r < limit,
{
    if v + 1 < limit {
        v + 1
    } else {
        limit - 1
    }
}

fn pixel(img: &ArgbImage, x: usize, y: usize) -> (p: Argb)
    requires
        img.wf(),
        x < img.width,
        y < img.height,
    ensures
        p == img.at(x as int, y as int),
{
    proof {
        lemma_index_in_bounds(x as int, y as int, img.width as int, img.height as int);
    }
    img.get(x, y)
}

/// Build the 4x4 kernel centered on `(x, y)` with clamped border reads.
pub fn build_kernel4(img: &ArgbImage, x: usize, y: usize) -> (k: Kernel4)
    requires
        img.wf(),
        x < img.width,
        y < img.height,
    ensures
        k == spec_kernel4(*img, x as int, y as int),
{
    let (w, h) = (img.width, img.height);
    let y_m1 = dec(y);
    let y_p1 = inc(y, h);
    let y_p2 = inc(y_p1, h);
    let x_m1 = dec(x);
    let x_p1 = inc(x, w);
    let x_p2 = inc(x_p1, w);
    Kernel4 {
        b: pixel(img, x, y_m1),
        c: pixel(img, x_p1, y_m1),
        e: pixel(img, x_m1, y),
        f: pixel(img, x, y),
        g: pixel(img, x_p1, y),
        h: pixel(img, x_p2, y),
        i: pixel(img, x_m1, y_p1),
        j: pixel(img, x, y_p1),
        k: pixel(img, x_p1, y_p1),
        l: pixel(img, x_p2, y_p1),
        n: pixel(img, x, y_p2),
        o: pixel(img, x_p1, y_p2),
    }
}

/// Build the 3x3 kernel centered on `(x, y)` with clamped border reads.
pub fn build_kernel3(img: &ArgbImage, x: usize, y: usize) -> (k: Kernel3)
    requires
        img.wf(),
        x < img.width,
        y < img.height,
    ensures
        k == spec_kernel3(*img, x as int, y as int),
{
    let (w, h) = (img.width, img.height);
    let y_m1 = dec(y);
    let y_p1 = inc(y, h);
    let x_m1 = dec(x);
    let x_p1 = inc(x, w);
    Kernel3 {
        a: pixel(img, x_m1, y_m1),
        b: pixel(img, x, y_m1),
        c: pixel(img, x_p1, y_m1),
        d: pixel(img, x_m1, y),
        e: pixel(img, x, y),
        f: pixel(img, x_p1, y),
        g: pixel(img, x_m1, y_p1),
        h: pixel(img, x, y_p1),
        i: pixel(img, x_p1, y_p1),
    }
}

/// The blend-info byte of pixel `(x, y)`: its top-left, top-right,
/// bottom-right and bottom-left corner decisions in fields 0..4, read from
/// the packed results of the four kernels that share each corner. Corners
/// along the top and left image border are never blended.
pub open spec fn spec_blend_info(kernels: Seq<u8>, x: int, y: int, w: int) -> u8 {
    let tl = if y > 0 && x > 0 {
        field(kernels[(y - 1) * w + (x - 1)], 3)
    } else {
        0
    };
    let tr = if y > 0 {
        field(kernels[(y - 1) * w + x], 2)
    } else {
        0
    };
    let br = field(kernels[y * w + x], 0);
    let bl = if x > 0 {
        field(kernels[y * w + x - 1], 1)
    } else {
        0
    };
    (tl + 4 * tr + 16 * br + 64 * bl) as u8
}

/// Assemble the four corner blend decisions of pixel `(x, y)` from the four
/// kernels that contain it.
pub fn assemble_blend_info(x: usize, y: usize, w: usize, kernels: &Vec<u8>) -> (info: u8)
    requires
        x < w,
        y * w + x < kernels@.len(),
    ensures
        info == spec_blend_info(kernels@, x as int, y as int, w as int),
        field(info, 0) == (if y > 0 && x > 0 {
            field(kernels@[(y - 1) * w + (x - 1)], 3)
        } else {
            0
        }),
        field(info, 1) == (if y > 0 {
            field(kernels@[(y - 1) * w + x], 2)
        } else {
            0
        }),
        field(info, 2) == field(kernels@[y * w + x], 0),
        field(info, 3) == (if x > 0 {
            field(kernels@[y * w + x - 1], 1)
        } else {
            0
        }),
{
    let n = kernels.len();
    assert(y * w <= n);
    let mut tl: u8 = 0;
    let mut tr: u8 = 0;
    if y > 0 {
        assert((y - 1) * w + x == y * w + x - w) by (nonlinear_arith);
        if x > 0 {
            let kb = kernels[(y - 1) * w + (x - 1)];
            tl = (kb >> 6) & 3;
            assert((kb >> 6) & 3 == kb / 64) by (bit_vector);
        }
        let kb = kernels[(y - 1) * w + x];
        tr = (kb >> 4) & 3;
        assert((kb >> 4) & 3 == (kb / 16) % 4) by (bit_vector);
    }
    let kb = kernels[y * w + x];
    let br: u8 = kb & 3;
    assert(kb & 3 == kb % 4) by (bit_vector);
    let mut bl: u8 = 0;
    if x > 0 {
        let kb = kernels[y * w + x - 1];
        bl = (kb >> 2) & 3;
        assert((kb >> 2) & 3 == (kb / 4) % 4) by (bit_vector);
    }
    let info: u8 = tl | (tr << 2) | (br << 4) | (bl << 6);
    assert(info == tl + 4 * tr + 16 * br + 64 * bl && info % 4 == tl && (info / 4) % 4 == tr
        && (info / 16) % 4 == br && info / 64 == bl) by (bit_vector)
        requires
            tl < 4,
            tr < 4,
            br < 4,
            bl < 4,
            info == tl | (tr << 2) | (br << 4) | (bl << 6),
    ;
    info
}

// ---------------------------------------------------------------------------
// Rotations
// ---------------------------------------------------------------------------

/// Rotate a 3x3 kernel 90 degrees clockwise.
pub open spec fn spec_rotate90(k: Kernel3) -> Kernel3 {
    Kernel3 { a: k.g, b: k.d, c: k.a, d: k.h, e: k.e, f: k.b, g: k.i, h: k.f, i: k.c }
}

/// The kernel rotated `r` quarter turns clockwise.
pub open spec fn spec_rotated(k: Kernel3, r: nat) -> Kernel3
    decreases r,
{
    if r == 0 {
        k
    } else {
        spec_rotate90(spec_rotated(k, (r - 1) as nat))
    }
}

/// Rotate a 3x3 kernel 90 degrees clockwise.
pub fn rotate_kernel90(k: &Kernel3) -> (r: Kernel3)
    ensures
        r == spec_rotate90(*k),
{
    Kernel3 { a: k.g, b: k.d, c: k.a, d: k.h, e: k.e, f: k.b, g: k.i, h: k.f, i: k.c }
}

/// The blend-info byte with its four fields rotated `r` places upward, so
/// that field `i` of the result is field `i - r` (mod 4) of `b`.
pub open spec fn spec_rotate_info(b: u8, r: int) -> u8 {
    (field(b, (4 - r) % 4) + 4 * field(b, (5 - r) % 4) + 16 * field(b, (6 - r) % 4) + 64 * field(
        b,
        (7 - r) % 4,
    )) as u8
}

/// Rotate the per-pixel blend-info byte so that the "bottom-right" corner
/// field describes the corner under evaluation in the rotated frame.
pub fn rotate_blend_info(r: usize, b: u8) -> (res: u8)
    requires
        r < 4,
    ensures
        res == spec_rotate_info(b, r as int),
        field(res, 0) == field(b, (4 - r) % 4),
        field(res, 1) == field(b, (5 - r) % 4),
        field(res, 2) == field(b, (6 - r) % 4),
        field(res, 3) == field(b, (7 - r) % 4),
{
    let res: u8 = if r == 0 {
        b
    } else if r == 1 {
        (b << 2) | (b >> 6)
    } else if r == 2 {
        (b << 4) | (b >> 4)
    } else {
        (b << 6) | (b >> 2)
    };
    assert(r == 0 ==> res == b % 4 + 4 * ((b / 4) % 4) + 16 * ((b / 16) % 4) + 64 * (b / 64))
        by (bit_vector)
        requires
            r == 0 ==> res == b,
    ;
    assert(r == 1 ==> (res % 4 == b / 64 && (res / 4) % 4 == b % 4 && (res / 16) % 4 == (b / 4) % 4
        && res / 64 == (b / 16) % 4)) by (bit_vector)
        requires
            r == 1 ==> res == (b << 2) | (b >> 6),
    ;
    assert(r == 2 ==> (res % 4 == (b / 16) % 4 && (res / 4) % 4 == b / 64 && (res / 16) % 4 == b
        % 4 && res / 64 == (b / 4) % 4)) by (bit_vector)
        requires
            r == 2 ==> res == (b << 4) | (b >> 4),
    ;
    assert(r == 3 ==> (res % 4 == (b / 4) % 4 && (res / 4) % 4 == (b / 16) % 4 && (res / 16) % 4
        == b / 64 && res / 64 == b % 4)) by (bit_vector)
        requires
            r == 3 ==> res == (b << 6) | (b >> 2),
    ;
    assert(res == res % 4 + 4 * ((res / 4) % 4) + 16 * ((res / 16) % 4) + 64 * (res / 64))
        by (bit_vector);
    res
}

/// Where the corner-local subpixel `(i, j)` lands in the output block for
/// rotation `r`.
pub open spec fn spec_rotate_pos(r: int, scale: int, i: int, j: int) -> (int, int) {
    if r == 0 {
        (i, j)
    } else if r == 1 {
        (scale - 1 - j, i)
    } else if r == 2 {
        (scale - 1 - i, scale - 1 - j)
    } else {
        (j, scale - 1 - i)
    }
}

/// Map a corner-local subpixel position to its position in the output block
/// for the given rotation.
pub fn rotate_pos(r: usize, scale: usize, i: usize, j: usize) -> (p: (usize, usize))
    requires
        i < scale,
        j < scale,
    ensures
        p.0 == spec_rotate_pos(r as int, scale as int, i as int, j as int).0,
        p.1 == spec_rotate_pos(r as int, scale as int, i as int, j as int).1,
        p.0 < scale,
        p.1 < scale,
{
    if r == 0 {
        (i, j)
    } else if r == 1 {
        (scale - 1 - j, i)
    } else if r == 2 {
        (scale - 1 - i, scale - 1 - j)
    } else {
        (j, scale - 1 - i)
    }
}

// ---------------------------------------------------------------------------
// Colour gradient
// ---------------------------------------------------------------------------

/// The colour `m / n` of the way from `back` to `front`, interpolating both
/// the alpha-weighted colour channels and the alpha channel itself (not
/// alpha compositing).
pub open spec fn spec_gradient(m: u32, n: u32, front: Argb, back: Argb) -> Argb {
    let wf = front.alpha() * m;
    let wb = back.alpha() * (n - m);
    let sum = wf + wb;
    if sum == 0 {
        Argb(0)
    } else {
        Argb(
            packed(
                ((front.red() * wf + back.red() * wb) / sum) as u8,
                ((front.green() * wf + back.green() * wb) / sum) as u8,
                ((front.blue() * wf + back.blue() * wb) / sum) as u8,
                (sum / (n as int)) as u8,
            ),
        )
    }
}

/// The weighted sums of `gradient_argb` stay inside `u32`.
pub open spec fn gradient_fits(m: u32, n: u32, front: Argb, back: Argb) -> bool {
    let wf = front.alpha() * m;
    let wb = back.alpha() * (n - m);
    &&& m <= n
    &&& wf + wb <= u32::MAX
    &&& front.red() * wf + back.red() * wb <= u32::MAX
    &&& front.green() * wf + back.green() * wb <= u32::MAX
    &&& front.blue() * wf + back.blue() * wb <= u32::MAX
    &&& (wf + wb != 0 ==> n > 0)
}

proof fn lemma_mul_nonneg(a: int, b: int)
    requires
        0 <= a,
        0 <= b,
    ensures
        0 <= a * b,
{
    assert(0 <= a * b) by (nonlinear_arith)
        requires
            0 <= a,
            0 <= b,
    ;
}

/// Intermediate colour between two colours with alpha channels (NOT alpha
/// compositing): both the colour channels and the alpha channel are
/// interpolated.
pub fn gradient_argb(m: u32, n: u32, front: Argb, back: Argb) -> (p: Argb)
    requires
        gradient_fits(m, n, front, back),
    ensures
        p == spec_gradient(m, n, front, back),
{
    let fa = front.a();
    let ba = back.a();
    proof {
        lemma_mul_nonneg(fa as int, m as int);
        lemma_mul_nonneg(ba as int, (n - m) as int);
    }
    let weight_front = fa * m;
    let weight_back = ba * (n - m);
    let weight_sum = weight_front + weight_back;
    if weight_sum == 0 {
        return Argb(0);
    }
    let (fr, br) = (front.r(), back.r());
    let (fg, bg) = (front.g(), back.g());
    let (fb, bb) = (front.b(), back.b());
    proof {
        lemma_mul_nonneg(fr as int, weight_front as int);
        lemma_mul_nonneg(br as int, weight_back as int);
        lemma_mul_nonneg(fg as int, weight_front as int);
        lemma_mul_nonneg(bg as int, weight_back as int);
        lemma_mul_nonneg(fb as int, weight_front as int);
        lemma_mul_nonneg(bb as int, weight_back as int);
    }
    let r = ((fr * weight_front + br * weight_back) / weight_sum) as u8;
    let g = ((fg * weight_front + bg * weight_back) / weight_sum) as u8;
    let b = ((fb * weight_front + bb * weight_back) / weight_sum) as u8;
    let a = (weight_sum / n) as u8;
    Argb::from_rgba(r, g, b, a)
}

// ---------------------------------------------------------------------------
// Blend weight tables (one per scale factor)
// ---------------------------------------------------------------------------

/// What a blend operation does to its subpixel.
#[derive(Clone, Copy, PartialEq, Eq, Structural, Debug)]
pub enum OpKind {
    /// Blend the line colour over the current subpixel with opacity `m / n`.
    Grad { m: u32, n: u32 },
    /// Replace the subpixel with the line colour.
    Replace,
}

/// A single blend operation applied to subpixel `(i, j)` (row, column in
/// the bottom-right corner frame).
#[derive(Clone, Copy, PartialEq, Eq, Structural, Debug)]
pub struct Op {
    pub kind: OpKind,
    pub i: usize,
    pub j: usize,
}

/// The shape of the blend applied to one corner of a pixel.
#[derive(Clone, Copy, PartialEq, Eq, Structural, Debug)]
pub enum BlendPattern {
    LineShallow,
    LineSteep,
    LineSteepAndShallow,
    LineDiagonal,
    Corner,
}

pub open spec fn sg(m: u32, n: u32, i: usize, j: usize) -> Op {
    Op { kind: OpKind::Grad { m, n }, i, j }
}

pub open spec fn ss(i: usize, j: usize) -> Op {
    Op { kind: OpKind::Replace, i, j }
}

pub fn grad(m: u32, n: u32, i: usize, j: usize) -> (op: Op)
    ensures
        op == sg(m, n, i, j),
{
    Op { kind: OpKind::Grad { m, n }, i, j }
}

pub fn set(i: usize, j: usize) -> (op: Op)
    ensures
        op == ss(i, j),
{
    Op { kind: OpKind::Replace, i, j }
}

/// The blend operations of each pattern, per scale factor (corner-local
/// coordinates in the bottom-right corner frame).
pub open spec fn spec_ops(scale: int, p: BlendPattern) -> Seq<Op> {
    if scale == 2 {
        match p {
            BlendPattern::LineShallow => seq![sg(1, 4, 1, 0), sg(3, 4, 1, 1)],
            BlendPattern::LineSteep => seq![sg(1, 4, 0, 1), sg(3, 4, 1, 1)],
            BlendPattern::LineSteepAndShallow => seq![sg(1, 4, 1, 0), sg(1, 4, 0, 1), sg(5, 6, 1, 1)],
            BlendPattern::LineDiagonal => seq![sg(1, 2, 1, 1)],
            BlendPattern::Corner => seq![sg(21, 100, 1, 1)],
        }
    } else if scale == 3 {
        match p {
            BlendPattern::LineShallow => seq![sg(1, 4, 2, 0), sg(1, 4, 1, 2), sg(3, 4, 2, 1), ss(2, 2)],
            BlendPattern::LineSteep => seq![sg(1, 4, 0, 2), sg(1, 4, 2, 1), sg(3, 4, 1, 2), ss(2, 2)],
            BlendPattern::LineSteepAndShallow => seq![sg(1, 4, 2, 0), sg(1, 4, 0, 2), sg(3, 4, 2, 1), sg(3, 4, 1, 2), ss(2, 2)],
            BlendPattern::LineDiagonal => seq![sg(1, 8, 1, 2), sg(1, 8, 2, 1), sg(7, 8, 2, 2)],
            BlendPattern::Corner => seq![sg(45, 100, 2, 2)],
        }
    } else if scale == 4 {
        match p {
            BlendPattern::LineShallow => seq![sg(1, 4, 3, 0), sg(1, 4, 2, 2), sg(3, 4, 3, 1), sg(3, 4, 2, 3), ss(3, 2), ss(3, 3)],
            BlendPattern::LineSteep => seq![sg(1, 4, 0, 3), sg(1, 4, 2, 2), sg(3, 4, 1, 3), sg(3, 4, 3, 2), ss(2, 3), ss(3, 3)],
            BlendPattern::LineSteepAndShallow => seq![sg(3, 4, 3, 1), sg(3, 4, 1, 3), sg(1, 4, 3, 0), sg(1, 4, 0, 3), sg(1, 3, 2, 2), ss(3, 3), ss(3, 2), ss(2, 3)],
            BlendPattern::LineDiagonal => seq![sg(1, 2, 3, 2), sg(1, 2, 2, 3), ss(3, 3)],
            BlendPattern::Corner => seq![sg(68, 100, 3, 3), sg(9, 100, 3, 2), sg(9, 100, 2, 3)],
        }
    } else if scale == 5 {
        match p {
            BlendPattern::LineShallow => seq![sg(1, 4, 4, 0), sg(1, 4, 3, 2), sg(1, 4, 2, 4), sg(3, 4, 4, 1), sg(3, 4, 3, 3), ss(4, 2), ss(4, 3), ss(4, 4), ss(3, 4)],
            BlendPattern::LineSteep => seq![sg(1, 4, 0, 4), sg(1, 4, 2, 3), sg(1, 4, 4, 2), sg(3, 4, 1, 4), sg(3, 4, 3, 3), ss(2, 4), ss(3, 4), ss(4, 4), ss(4, 3)],
            BlendPattern::LineSteepAndShallow => seq![sg(1, 4, 0, 4), sg(1, 4, 2, 3), sg(3, 4, 1, 4), sg(1, 4, 4, 0), sg(1, 4, 3, 2), sg(3, 4, 4, 1), sg(2, 3, 3, 3), ss(2, 4), ss(3, 4), ss(4, 4), ss(4, 2), ss(4, 3)],
            BlendPattern::LineDiagonal => seq![sg(1, 8, 4, 2), sg(1, 8, 3, 3), sg(1, 8, 2, 4), sg(7, 8, 4, 3), sg(7, 8, 3, 4), ss(4, 4)],
            BlendPattern::Corner => seq![sg(86, 100, 4, 4), sg(23, 100, 4, 3), sg(23, 100, 3, 4)],
        }
    } else {
        match p {
            BlendPattern::LineShallow => seq![sg(1, 4, 5, 0), sg(1, 4, 4, 2), sg(1, 4, 3, 4), sg(3, 4, 5, 1), sg(3, 4, 4, 3), sg(3, 4, 3, 5), ss(5, 2), ss(5, 3), ss(5, 4), ss(5, 5), ss(4, 4), ss(4, 5)],
            BlendPattern::LineSteep => seq![sg(1, 4, 0, 5), sg(1, 4, 2, 4), sg(1, 4, 4, 3), sg(3, 4, 1, 5), sg(3, 4, 3, 4), sg(3, 4, 5, 3), ss(2, 5), ss(3, 5), ss(4, 5), ss(5, 5), ss(4, 4), ss(5, 4)],
            BlendPattern::LineSteepAndShallow => seq![sg(1, 4, 0, 5), sg(1, 4, 2, 4), sg(3, 4, 1, 5), sg(3, 4, 3, 4), sg(1, 4, 5, 0), sg(1, 4, 4, 2), sg(3, 4, 5, 1), sg(3, 4, 4, 3), ss(2, 5), ss(3, 5), ss(4, 5), ss(5, 5), ss(4, 4), ss(5, 4), ss(5, 2), ss(5, 3)],
            BlendPattern::LineDiagonal => seq![sg(1, 2, 5, 3), sg(1, 2, 4, 4), sg(1, 2, 3, 5), ss(4, 5), ss(5, 5), ss(5, 4)],
            BlendPattern::Corner => seq![sg(97, 100, 5, 5), sg(42, 100, 4, 5), sg(42, 100, 5, 4), sg(6, 100, 5, 3), sg(6, 100, 3, 5)],
        }
    }
}

/// Every operation of a table lies inside the `scale x scale` block and
/// blends with a proper fraction.
pub open spec fn ops_wf(ops: Seq<Op>, scale: int) -> bool {
    forall|k: int|
        0 <= k < ops.len() ==> {
            &&& #[trigger] ops[k].i < scale
            &&& ops[k].j < scale
            &&& (ops[k].kind matches OpKind::Grad { m, n } ==> 0 < n <= 100 && m <= n)
        }
}

pub proof fn lemma_ops_wf(scale: int, p: BlendPattern)
    requires
        2 <= scale <= 6,
    ensures
        ops_wf(spec_ops(scale, p), scale),
{
    let ops = spec_ops(scale, p);
    assert forall|k: int| 0 <= k < ops.len() implies {
        &&& #[trigger] ops[k].i < scale
        &&& ops[k].j < scale
        &&& (ops[k].kind matches OpKind::Grad { m, n } ==> 0 < n <= 100 && m <= n)
    } by {
        if scale == 2 {
            assert(0 <= k < 3);
        }
    }
}

fn table_2(p: BlendPattern) -> (v: Vec<Op>)
    ensures
        v@ == spec_ops(2, p),
{
    match p {
        BlendPattern::LineShallow => vec![grad(1, 4, 1, 0), grad(3, 4, 1, 1)],
        BlendPattern::LineSteep => vec![grad(1, 4, 0, 1), grad(3, 4, 1, 1)],
        BlendPattern::LineSteepAndShallow => vec![grad(1, 4, 1, 0), grad(1, 4, 0, 1), grad(5, 6, 1, 1)],
        BlendPattern::LineDiagonal => vec![grad(1, 2, 1, 1)],
        BlendPattern::Corner => vec![grad(21, 100, 1, 1)],
    }
}

fn table_3(p: BlendPattern) -> (v: Vec<Op>)
    ensures
        v@ == spec_ops(3, p),
{
    match p {
        BlendPattern::LineShallow => vec![grad(1, 4, 2, 0), grad(1, 4, 1, 2), grad(3, 4, 2, 1), set(2, 2)],
        BlendPattern::LineSteep => vec![grad(1, 4, 0, 2), grad(1, 4, 2, 1), grad(3, 4, 1, 2), set(2, 2)],
        BlendPattern::LineSteepAndShallow => vec![grad(1, 4, 2, 0), grad(1, 4, 0, 2), grad(3, 4, 2, 1), grad(3, 4, 1, 2), set(2, 2)],
        BlendPattern::LineDiagonal => vec![grad(1, 8, 1, 2), grad(1, 8, 2, 1), grad(7, 8, 2, 2)],
        BlendPattern::Corner => vec![grad(45, 100, 2, 2)],
    }
}

fn table_4(p: BlendPattern) -> (v: Vec<Op>)
    ensures
        v@ == spec_ops(4, p),
{
    match p {
        BlendPattern::LineShallow => vec![grad(1, 4, 3, 0), grad(1, 4, 2, 2), grad(3, 4, 3, 1), grad(3, 4, 2, 3), set(3, 2), set(3, 3)],
        BlendPattern::LineSteep => vec![grad(1, 4, 0, 3), grad(1, 4, 2, 2), grad(3, 4, 1, 3), grad(3, 4, 3, 2), set(2, 3), set(3, 3)],
        BlendPattern::LineSteepAndShallow => vec![grad(3, 4, 3, 1), grad(3, 4, 1, 3), grad(1, 4, 3, 0), grad(1, 4, 0, 3), grad(1, 3, 2, 2), set(3, 3), set(3, 2), set(2, 3)],
        BlendPattern::LineDiagonal => vec![grad(1, 2, 3, 2), grad(1, 2, 2, 3), set(3, 3)],
        BlendPattern::Corner => vec![grad(68, 100, 3, 3), grad(9, 100, 3, 2), grad(9, 100, 2, 3)],
    }
}

fn table_5(p: BlendPattern) -> (v: Vec<Op>)
    ensures
        v@ == spec_ops(5, p),
{
    match p {
        BlendPattern::LineShallow => vec![grad(1, 4, 4, 0), grad(1, 4, 3, 2), grad(1, 4, 2, 4), grad(3, 4, 4, 1), grad(3, 4, 3, 3), set(4, 2), set(4, 3), set(4, 4), set(3, 4)],
        BlendPattern::LineSteep => vec![grad(1, 4, 0, 4), grad(1, 4, 2, 3), grad(1, 4, 4, 2), grad(3, 4, 1, 4), grad(3, 4, 3, 3), set(2, 4), set(3, 4), set(4, 4), set(4, 3)],
        BlendPattern::LineSteepAndShallow => vec![grad(1, 4, 0, 4), grad(1, 4, 2, 3), grad(3, 4, 1, 4), grad(1, 4, 4, 0), grad(1, 4, 3, 2), grad(3, 4, 4, 1), grad(2, 3, 3, 3), set(2, 4), set(3, 4), set(4, 4), set(4, 2), set(4, 3)],
        BlendPattern::LineDiagonal => vec![grad(1, 8, 4, 2), grad(1, 8, 3, 3), grad(1, 8, 2, 4), grad(7, 8, 4, 3), grad(7, 8, 3, 4), set(4, 4)],
        BlendPattern::Corner => vec![grad(86, 100, 4, 4), grad(23, 100, 4, 3), grad(23, 100, 3, 4)],
    }
}

fn table_6(p: BlendPattern) -> (v: Vec<Op>)
    ensures
        v@ == spec_ops(6, p),
{
    match p {
        BlendPattern::LineShallow => vec![grad(1, 4, 5, 0), grad(1, 4, 4, 2), grad(1, 4, 3, 4), grad(3, 4, 5, 1), grad(3, 4, 4, 3), grad(3, 4, 3, 5), set(5, 2), set(5, 3), set(5, 4), set(5, 5), set(4, 4), set(4, 5)],
        BlendPattern::LineSteep => vec![grad(1, 4, 0, 5), grad(1, 4, 2, 4), grad(1, 4, 4, 3), grad(3, 4, 1, 5), grad(3, 4, 3, 4), grad(3, 4, 5, 3), set(2, 5), set(3, 5), set(4, 5), set(5, 5), set(4, 4), set(5, 4)],
        BlendPattern::LineSteepAndShallow => vec![grad(1, 4, 0, 5), grad(1, 4, 2, 4), grad(3, 4, 1, 5), grad(3, 4, 3, 4), grad(1, 4, 5, 0), grad(1, 4, 4, 2), grad(3, 4, 5, 1), grad(3, 4, 4, 3), set(2, 5), set(3, 5), set(4, 5), set(5, 5), set(4, 4), set(5, 4), set(5, 2), set(5, 3)],
        BlendPattern::LineDiagonal => vec![grad(1, 2, 5, 3), grad(1, 2, 4, 4), grad(1, 2, 3, 5), set(4, 5), set(5, 5), set(5, 4)],
        BlendPattern::Corner => vec![grad(97, 100, 5, 5), grad(42, 100, 4, 5), grad(42, 100, 5, 4), grad(6, 100, 5, 3), grad(6, 100, 3, 5)],
    }
}

/// The five blend tables of one scale factor.
pub struct ScaleTable {
    pub scale: usize,
    pub line_shallow: Vec<Op>,
    pub line_steep: Vec<Op>,
    pub line_steep_and_shallow: Vec<Op>,
    pub line_diagonal: Vec<Op>,
    pub corner: Vec<Op>,
}

impl ScaleTable {
    pub open spec fn spec_pattern(&self, p: BlendPattern) -> Seq<Op> {
        match p {
            BlendPattern::LineShallow => self.line_shallow@,
            BlendPattern::LineSteep => self.line_steep@,
            BlendPattern::LineSteepAndShallow => self.line_steep_and_shallow@,
            BlendPattern::LineDiagonal => self.line_diagonal@,
            BlendPattern::Corner => self.corner@,
        }
    }

    /// Every pattern holds the operations of its scale.
    pub open spec fn holds(&self) -> bool {
        &&& 2 <= self.scale <= 6
        &&& forall|p: BlendPattern| #[trigger] self.spec_pattern(p) == spec_ops(self.scale as int, p)
    }

    fn table(scale: usize, p: BlendPattern) -> (v: Vec<Op>)
        requires
            2 <= scale <= 6,
        ensures
            v@ == spec_ops(scale as int, p),
    {
        if scale == 2 {
            table_2(p)
        } else if scale == 3 {
            table_3(p)
        } else if scale == 4 {
            table_4(p)
        } else if scale == 5 {
            table_5(p)
        } else {
            table_6(p)
        }
    }

    /// The blend tables of scale factor `scale` (2..=6).
    pub fn for_scale(scale: usize) -> (t: ScaleTable)
        requires
            2 <= scale <= 6,
        ensures
            t.holds(),
            t.scale == scale,
    {
        ScaleTable {
            scale,
            line_shallow: Self::table(scale, BlendPattern::LineShallow),
            line_steep: Self::table(scale, BlendPattern::LineSteep),
            line_steep_and_shallow: Self::table(scale, BlendPattern::LineSteepAndShallow),
            line_diagonal: Self::table(scale, BlendPattern::LineDiagonal),
            corner: Self::table(scale, BlendPattern::Corner),
        }
    }

    pub fn ops(&self, p: BlendPattern) -> (v: &Vec<Op>)
        ensures
            v@ == self.spec_pattern(p),
    {
        match p {
            BlendPattern::LineShallow => &self.line_shallow,
            BlendPattern::LineSteep => &self.line_steep,
            BlendPattern::LineSteepAndShallow => &self.line_steep_and_shallow,
            BlendPattern::LineDiagonal => &self.line_diagonal,
            BlendPattern::Corner => &self.corner,
        }
    }
}

// ---------------------------------------------------------------------------
// Per-pixel blending
// ---------------------------------------------------------------------------

/// The colour-similarity judgements that decide how one corner of a pixel is
/// blended, on the kernel rotated so that the corner under evaluation is the
/// bottom-right one (`e` is the pixel, see [`Kernel3`]).
#[derive(Clone, Copy, PartialEq, Eq, Structural, Debug)]
pub struct CornerJudgement {
    /// `e` and `g` count as equal colours.
    pub e_like_g: bool,
    /// `e` and `c` count as equal colours.
    pub e_like_c: bool,
    /// `e` and `i` count as equal colours.
    pub e_like_i: bool,
    /// `g` and `h` count as equal colours.
    pub g_like_h: bool,
    /// `h` and `i` count as equal colours.
    pub h_like_i: bool,
    /// `i` and `f` count as equal colours.
    pub i_like_f: bool,
    /// `f` and `c` count as equal colours.
    pub f_like_c: bool,
    /// `f` is at least as close to `e` as `h` is.
    pub f_nearer: bool,
    /// The `f-g` distance, scaled by the steepness ratio, is at most the
    /// `h-c` distance (a shallow line).
    pub shallow: bool,
    /// The `h-c` distance, scaled by the steepness ratio, is at most the
    /// `f-g` distance (a steep line).
    pub steep: bool,
}

/// Does the bottom-right corner of a (rotated) blend-info byte ask for a
/// blend?
pub open spec fn corner_active(blend: u8) -> bool {
    field(blend, 2) != 0
}

/// The blend applied to the bottom-right corner of the rotated kernel `ker`,
/// with the rotated blend-info byte `blend`: the pattern and the line colour,
/// or `None` when the corner is not blended.
pub open spec fn spec_choice(ker: Kernel3, blend: u8, jd: CornerJudgement) -> Option<
    (BlendPattern, Argb),
> {
    let corner = field(blend, 2);
    if corner == 0 {
        None
    } else {
        let line = if corner >= 2 {
            true
        } else {
            let insular = (field(blend, 1) != 0 && !jd.e_like_g) || (field(blend, 3) != 0
                && !jd.e_like_c);
            let l_shape = !jd.e_like_i && jd.g_like_h && jd.h_like_i && jd.i_like_f
                && jd.f_like_c;
            !insular && !l_shape
        };
        let px = if jd.f_nearer {
            ker.f
        } else {
            ker.h
        };
        let pattern = if line {
            let have_shallow = jd.shallow && ker.e != ker.g && ker.d != ker.g;
            let have_steep = jd.steep && ker.e != ker.c && ker.b != ker.c;
            if have_shallow && have_steep {
                BlendPattern::LineSteepAndShallow
            } else if have_shallow {
                BlendPattern::LineShallow
            } else if have_steep {
                BlendPattern::LineSteep
            } else {
                BlendPattern::LineDiagonal
            }
        } else {
            BlendPattern::Corner
        };
        Some((pattern, px))
    }
}

/// Law: which blend a corner gets, in terms of the blend-info byte and the
/// colour judgements.
///
/// - The corner is blended exactly when bits 4..6 of `blend` (its own
///   corner field) are not zero.
/// - The colour blended in is one of the two orthogonal neighbours of `e`:
///   `f` when `f` is at least as near to `e` as `h` is (`f_nearer`), `h`
///   otherwise.
/// - A corner whose own field is at least 2 always gets a line blend.
/// - A line blend uses the shallow pattern when only the shallow condition
///   holds (`shallow`, with `g` differing from `e` and from `d`), the steep
///   pattern when only the steep condition holds (`steep`, with `c`
///   differing from `e` and from `b`), both patterns at once when both
///   hold, and the plain diagonal when neither does.
/// - An active corner whose own field is 1 gets a corner blend, not a line,
///   when `e` is an L-shape's inner pixel or when an adjacent corner is
///   blended towards a neighbour that does not look like `e`.
pub proof fn law_blend_choice(ker: Kernel3, blend: u8, jd: CornerJudgement)
    ensures
        spec_choice(ker, blend, jd) is None <==> (blend / 16) % 4 == 0,
        spec_choice(ker, blend, jd) matches Some((_p, px)) ==> (jd.f_nearer ==> px == ker.f) && (!jd.f_nearer
            ==> px == ker.h),
        ({
            let own = (blend / 16) % 4;
            let insular = ((blend / 4) % 4 != 0 && !jd.e_like_g) || (blend / 64 != 0 && !jd.e_like_c);
            let l_shape = !jd.e_like_i && jd.g_like_h && jd.h_like_i && jd.i_like_f && jd.f_like_c;
            let line = own >= 2 || (!insular && !l_shape);
            let shallow = jd.shallow && ker.e != ker.g && ker.d != ker.g;
            let steep = jd.steep && ker.e != ker.c && ker.b != ker.c;
            spec_choice(ker, blend, jd) matches Some((p, _px)) ==> {
                &&& !line ==> p == BlendPattern::Corner
                &&& line && shallow && !steep ==> p == BlendPattern::LineShallow
                &&& line && steep && !shallow ==> p == BlendPattern::LineSteep
                &&& line && shallow && steep ==> p == BlendPattern::LineSteepAndShallow
                &&& line && !shallow && !steep ==> p == BlendPattern::LineDiagonal
            }
        }),
{
}

/// Law: the classification of the corner where `f, g, j, k` meet.
///
/// - A flat corner (two opposite sides of one colour each) and a balanced
///   verdict blend nothing.
/// - Under a J-G verdict, `g` and `j` are not blended; `f` is blended
///   exactly when it differs from both `g` and `j`, and `k` exactly when it
///   differs from both `j` and `g`, each with the verdict's strength.
/// - Under an F-K verdict, `f` and `k` are not blended; `j` is blended
///   exactly when it differs from both `f` and `k`, and `g` exactly when it
///   differs from both `f` and `k`, each with the verdict's strength.
pub proof fn law_corner_classification(k: Kernel4, v: DiagonalVerdict)
    ensures
        ({
            let r = spec_preprocess(k, v);
            let none = BlendType::NoBlend;
            let flat = (k.f == k.g && k.j == k.k) || (k.f == k.j && k.g == k.k);
            &&& (flat || v is Balanced) ==> r.f == none && r.g == none && r.j == none && r.k == none
            &&& v matches DiagonalVerdict::AlongJg { dominant } ==> {
                let s = if dominant { BlendType::Dominant } else { BlendType::Normal };
                &&& r.g == none && r.j == none
                &&& (r.f != none <==> (k.f != k.g && k.f != k.j))
                &&& (r.k != none <==> (k.k != k.j && k.k != k.g))
                &&& (r.f != none ==> r.f == s)
                &&& (r.k != none ==> r.k == s)
            }
            &&& v matches DiagonalVerdict::AlongFk { dominant } ==> {
                let s = if dominant { BlendType::Dominant } else { BlendType::Normal };
                &&& r.f == none && r.k == none
                &&& (r.j != none <==> (k.j != k.f && k.j != k.k))
                &&& (r.g != none <==> (k.g != k.f && k.g != k.k))
                &&& (r.j != none ==> r.j == s)
                &&& (r.g != none ==> r.g == s)
            }
        }),
{
}

/// Is the bottom-right corner of the rotated blend-info byte blended?
pub fn is_corner_active(blend: u8) -> (r: bool)
    ensures
        r == corner_active(blend),
{
    assert((blend >> 4) & 3 == (blend / 16) % 4) by (bit_vector);
    (blend >> 4) & 3 != 0
}

/// Choose the blend pattern and line colour of the bottom-right corner of
/// `ker` from the colour judgements.
pub fn blend_choice(ker: &Kernel3, blend: u8, jd: &CornerJudgement) -> (c: Option<
    (BlendPattern, Argb),
>)
    ensures
        c == spec_choice(*ker, blend, *jd),
{
    assert((blend >> 4) & 3 == (blend / 16) % 4 && (blend >> 2) & 3 == (blend / 4) % 4 && (blend
        >> 6) & 3 == blend / 64) by (bit_vector);
    let corner = (blend >> 4) & 3;
    if corner == 0 {
        return None;
    }
    let do_line_blend = if corner >= 2 {
        true
    } else {
        let top_r = (blend >> 2) & 3;
        let bottom_l = (blend >> 6) & 3;
        // Insular pixels (no double blending in an adjacent corner)...
        let insular = (top_r != 0 && !jd.e_like_g) || (bottom_l != 0 && !jd.e_like_c);
        // ...and L-shapes get a corner blend instead of a full line.
        let l_shape = !jd.e_like_i && jd.g_like_h && jd.h_like_i && jd.i_like_f && jd.f_like_c;
        !insular && !l_shape
    };
    // The most similar of the two orthogonal neighbours.
    let px = if jd.f_nearer {
        ker.f
    } else {
        ker.h
    };
    let pattern = if do_line_blend {
        let have_shallow = jd.shallow && ker.e != ker.g && ker.d != ker.g;
        let have_steep = jd.steep && ker.e != ker.c && ker.b != ker.c;
        if have_shallow && have_steep {
            BlendPattern::LineSteepAndShallow
        } else if have_shallow {
            BlendPattern::LineShallow
        } else if have_steep {
            BlendPattern::LineSteep
        } else {
            BlendPattern::LineDiagonal
        }
    } else {
        BlendPattern::Corner
    };
    Some((pattern, px))
}

/// The block after applying one operation in rotation `r`.
pub open spec fn spec_apply_op(block: Seq<Argb>, op: Op, r: int, scale: int, px: Argb) -> Seq<
    Argb,
> {
    let pos = spec_rotate_pos(r, scale, op.i as int, op.j as int);
    let idx = pos.0 * scale + pos.1;
    match op.kind {
        OpKind::Replace => block.update(idx, px),
        OpKind::Grad { m, n } => block.update(idx, spec_gradient(m, n, px, block[idx])),
    }
}

/// The block after applying `ops` in order, in rotation `r`.
pub open spec fn spec_apply_ops(block: Seq<Argb>, ops: Seq<Op>, r: int, scale: int, px: Argb) -> Seq<
    Argb,
>
    decreases ops.len(),
{
    if ops.len() == 0 {
        block
    } else {
        spec_apply_op(spec_apply_ops(block, ops.drop_last(), r, scale, px), ops.last(), r, scale, px)
    }
}

proof fn lemma_gradient_fits(m: u32, n: u32, front: Argb, back: Argb)
    requires
        0 < n <= 100,
        m <= n,
    ensures
        gradient_fits(m, n, front, back),
{
    let fa = front.alpha() as int;
    let ba = back.alpha() as int;
    assert(fa < 256 && ba < 256);
    let wf = fa * m;
    let wb = ba * (n - m);
    assert(0 <= wf <= 255 * m && 0 <= wb <= 255 * (n - m)) by (nonlinear_arith)
        requires
            0 <= fa < 256,
            0 <= ba < 256,
            m <= n,
            wf == fa * m,
            wb == ba * (n - m),
    ;
    assert(wf + wb <= 25500);
    assert forall|c1: int, c2: int| 0 <= c1 < 256 && 0 <= c2 < 256 implies #[trigger] (c1 * wf)
        + #[trigger] (c2 * wb) <= u32::MAX by {
        assert(c1 * wf + c2 * wb <= 255 * (wf + wb)) by (nonlinear_arith)
            requires
                0 <= c1 < 256,
                0 <= c2 < 256,
                0 <= wf,
                0 <= wb,
        ;
    }
    assert(front.red() < 256 && back.red() < 256 && front.green() < 256 && back.green() < 256
        && front.blue() < 256 && back.blue() < 256);
}

/// Apply the operations of one corner to the `scale x scale` block.
fn apply_ops(block: &mut Vec<Argb>, ops: &Vec<Op>, r: usize, scale: usize, px: Argb)
    requires
        old(block)@.len() == scale * scale,
        ops_wf(ops@, scale as int),
        2 <= scale <= 6,
    ensures
        final(block)@ == spec_apply_ops(old(block)@, ops@, r as int, scale as int, px),
        final(block)@.len() == scale * scale,
{
    let ghost start = block@;
    let mut k: usize = 0;
    while k < ops.len()
        invariant
            k <= ops@.len(),
            block@ == spec_apply_ops(start, ops@.take(k as int), r as int, scale as int, px),
            block@.len() == scale * scale,
            ops_wf(ops@, scale as int),
            2 <= scale <= 6,
        decreases ops@.len() - k,
    {
        let op = ops[k];
        assert(op.i < scale && op.j < scale);
        let (row, col) = rotate_pos(r, scale, op.i, op.j);
        assert(row * scale + col < scale * scale && scale * scale <= 36) by (nonlinear_arith)
            requires
                row < scale,
                col < scale,
                scale <= 6,
        ;
        let idx = row * scale + col;
        let ghost before = block@;
        match op.kind {
            OpKind::Replace => {
                block.set(idx, px);
            },
            OpKind::Grad { m, n } => {
                proof {
                    lemma_gradient_fits(m, n, px, before[idx as int]);
                }
                let cur = block[idx];
                block.set(idx, gradient_argb(m, n, px, cur));
            },
        }
        assert(ops@.take(k + 1).drop_last() =~= ops@.take(k as int));
        k += 1;
    }
    assert(ops@.take(ops@.len() as int) =~= ops@);
}

/// The block of one pixel after the blends of the first `count` rotations.
pub open spec fn spec_rotations(
    block: Seq<Argb>,
    ker: Kernel3,
    info: u8,
    jds: Seq<CornerJudgement>,
    scale: int,
    count: nat,
) -> Seq<Argb>
    decreases count,
{
    if count == 0 {
        block
    } else {
        let prev = spec_rotations(block, ker, info, jds, scale, (count - 1) as nat);
        let r = count - 1;
        match spec_choice(spec_rotated(ker, r as nat), spec_rotate_info(info, r), jds[r]) {
            None => prev,
            Some((p, px)) => spec_apply_ops(prev, spec_ops(scale, p), r, scale, px),
        }
    }
}

/// The `scale x scale` output block of pixel `(x, y)`, row-major, given the
/// packed corner decisions of every kernel and the colour judgements for
/// the pixel's four rotations.
pub open spec fn spec_block(
    img: ArgbImage,
    scale: int,
    kernels: Seq<u8>,
    jds: Seq<CornerJudgement>,
    x: int,
    y: int,
) -> Seq<Argb> {
    let px = img.at(x, y);
    spec_rotations(
        Seq::new((scale * scale) as nat, |_i: int| px),
        spec_kernel3(img, x, y),
        spec_blend_info(kernels, x, y, img.width as int),
        jds,
        scale,
        4,
    )
}

proof fn lemma_apply_ops_len(block: Seq<Argb>, ops: Seq<Op>, r: int, scale: int, px: Argb)
    requires
        ops_wf(ops, scale),
        block.len() == scale * scale,
    ensures
        spec_apply_ops(block, ops, r, scale, px).len() == block.len(),
    decreases ops.len(),
{
    if ops.len() > 0 {
        assert(ops_wf(ops.drop_last(), scale)) by {
            assert forall|k: int| 0 <= k < ops.drop_last().len() implies #[trigger] ops.drop_last()[k].i < scale by {
                assert(ops[k].i < scale);
            }
        }
        lemma_apply_ops_len(block, ops.drop_last(), r, scale, px);
        let op = ops.last();
        assert(op == ops[ops.len() - 1]);
        assert(op.i < scale && op.j < scale);
        let pos = spec_rotate_pos(r, scale, op.i as int, op.j as int);
        assert(0 <= pos.0 < scale && 0 <= pos.1 < scale);
        assert(0 <= pos.0 * scale + pos.1 < scale * scale) by (nonlinear_arith)
            requires
                0 <= pos.0 < scale,
                0 <= pos.1 < scale,
        ;
    }
}

proof fn lemma_rotations_len(
    block: Seq<Argb>,
    ker: Kernel3,
    info: u8,
    jds: Seq<CornerJudgement>,
    scale: int,
    count: nat,
)
    requires
        2 <= scale <= 6,
        block.len() == scale * scale,
    ensures
        spec_rotations(block, ker, info, jds, scale, count).len() == block.len(),
    decreases count,
{
    if count > 0 {
        lemma_rotations_len(block, ker, info, jds, scale, (count - 1) as nat);
        let prev = spec_rotations(block, ker, info, jds, scale, (count - 1) as nat);
        let r = count - 1;
        match spec_choice(spec_rotated(ker, r as nat), spec_rotate_info(info, r), jds[r]) {
            None => {},
            Some((p, px)) => {
                lemma_ops_wf(scale, p);
                lemma_apply_ops_len(prev, spec_ops(scale, p), r, scale, px);
            },
        }
    }
}

/// Every output block holds `scale * scale` subpixels.
pub proof fn lemma_block_len(
    img: ArgbImage,
    scale: int,
    kernels: Seq<u8>,
    jds: Seq<CornerJudgement>,
    x: int,
    y: int,
)
    requires
        2 <= scale <= 6,
    ensures
        spec_block(img, scale, kernels, jds, x, y).len() == scale * scale,
{
    let px = img.at(x, y);
    assert(scale * scale >= 0) by (nonlinear_arith)
        requires
            scale >= 0,
    ;
    lemma_rotations_len(
        Seq::new((scale * scale) as nat, |_i: int| px),
        spec_kernel3(img, x, y),
        spec_blend_info(kernels, x, y, img.width as int),
        jds,
        scale,
        4,
    );
}

/// A judgement that no corner reads: stands in for corners that are not
/// blended.
pub open spec fn unused_judgement() -> CornerJudgement {
    CornerJudgement {
        e_like_g: false,
        e_like_c: false,
        e_like_i: false,
        g_like_h: false,
        h_like_i: false,
        i_like_f: false,
        f_like_c: false,
        f_nearer: false,
        shallow: false,
        steep: false,
    }
}

/// The rounds only read the judgements of the rotations they cover.
proof fn lemma_rotations_prefix(
    block: Seq<Argb>,
    ker: Kernel3,
    info: u8,
    j1: Seq<CornerJudgement>,
    j2: Seq<CornerJudgement>,
    scale: int,
    count: nat,
)
    requires
        forall|r: int| 0 <= r < count ==> j1[r] == j2[r],
    ensures
        spec_rotations(block, ker, info, j1, scale, count) == spec_rotations(
            block,
            ker,
            info,
            j2,
            scale,
            count,
        ),
    decreases count,
{
    if count > 0 {
        lemma_rotations_prefix(block, ker, info, j1, j2, scale, (count - 1) as nat);
    }
}

/// With no corner to blend, the rounds leave the block alone.
proof fn lemma_rotations_idle(
    block: Seq<Argb>,
    ker: Kernel3,
    jds: Seq<CornerJudgement>,
    scale: int,
    count: nat,
)
    requires
        count <= 4,
    ensures
        spec_rotations(block, ker, 0, jds, scale, count) == block,
    decreases count,
{
    if count > 0 {
        lemma_rotations_idle(block, ker, jds, scale, (count - 1) as nat);
        let r = count - 1;
        assert(field(0, (4 - r) % 4) == 0 && field(0, (5 - r) % 4) == 0 && field(0, (6 - r) % 4)
            == 0 && field(0, (7 - r) % 4) == 0);
        assert(spec_rotate_info(0, r) == 0);
    }
}

/// Compute the output block of pixel `(x, y)`, asking `judge` about every
/// corner that needs blending; also returns the judgements it used.
fn render_block<G: Fn(Kernel3) -> CornerJudgement>(
    img: &ArgbImage,
    table: &ScaleTable,
    kernels: &Vec<u8>,
    x: usize,
    y: usize,
    judge: &G,
) -> (res: (Vec<Argb>, Ghost<Seq<CornerJudgement>>))
    requires
        img.wf(),
        x < img.width,
        y < img.height,
        table.holds(),
        kernels@.len() == img.width * img.height,
        forall|k: Kernel3| judge.requires((k,)),
    ensures
        res.1@.len() == 4,
        res.0@ == spec_block(*img, table.scale as int, kernels@, res.1@, x as int, y as int),
        forall|r: int|
            0 <= r < 4 && corner_active(
                spec_rotate_info(
                    spec_blend_info(kernels@, x as int, y as int, img.width as int),
                    r,
                ),
            ) ==> judge.ensures(
                (spec_rotated(spec_kernel3(*img, x as int, y as int), r as nat),),
                #[trigger] res.1@[r],
            ),
{
    let scale = table.scale;
    let px = pixel(img, x, y);
    proof {
        lemma_index_in_bounds(x as int, y as int, img.width as int, img.height as int);
        assert(scale * scale <= 36) by (nonlinear_arith)
            requires
                scale <= 6,
        ;
    }
    let mut block: Vec<Argb> = vec![px; scale * scale];
    let ghost base = block@;
    assert(base =~= Seq::new((scale * scale) as nat, |_i: int| px));
    let info = assemble_blend_info(x, y, img.width, kernels);
    let ghost k3s = spec_kernel3(*img, x as int, y as int);
    if info == 0 {
        let ghost jds = seq![unused_judgement(), unused_judgement(), unused_judgement(), unused_judgement()];
        proof {
            lemma_rotations_idle(base, k3s, jds, scale as int, 4);
            assert forall|r: int| 0 <= r < 4 implies !corner_active(spec_rotate_info(info, r)) by {
                assert(field(0, (4 - r) % 4) == 0 && field(0, (5 - r) % 4) == 0 && field(0, (6 - r)
                    % 4) == 0 && field(0, (7 - r) % 4) == 0);
                assert(spec_rotate_info(0, r) == 0);
            }
        }
        return (block, Ghost(jds));
    }
    let mut ker = build_kernel3(img, x, y);
    let ghost mut jds: Seq<CornerJudgement> = seq![];
    let mut r: usize = 0;
    while r < 4
        invariant
            r <= 4,
            jds.len() == r,
            ker == spec_rotated(k3s, r as nat),
            block@ == spec_rotations(base, k3s, info, jds, scale as int, r as nat),
            block@.len() == scale * scale,
            table.holds(),
            scale == table.scale,
            forall|k: Kernel3| judge.requires((k,)),
            forall|q: int|
                0 <= q < r && corner_active(spec_rotate_info(info, q)) ==> judge.ensures(
                    (spec_rotated(k3s, q as nat),),
                    #[trigger] jds[q],
                ),
        decreases 4 - r,
    {
        let blend = rotate_blend_info(r, info);
        let ghost prev = jds;
        if is_corner_active(blend) {
            let jd = judge(ker);
            proof {
                jds = jds.push(jd);
            }
            match blend_choice(&ker, blend, &jd) {
                Some((pattern, line)) => {
                    proof {
                        lemma_ops_wf(scale as int, pattern);
                    }
                    let ops = table.ops(pattern);
                    apply_ops(&mut block, ops, r, scale, line);
                },
                None => {},
            }
        } else {
            proof {
                jds = jds.push(unused_judgement());
            }
        }
        proof {
            lemma_rotations_prefix(base, k3s, info, prev, jds, scale as int, r as nat);
        }
        ker = rotate_kernel90(&ker);
        r += 1;
    }
    (block, Ghost(jds))
}

// ---------------------------------------------------------------------------
// Scale driver
// ---------------------------------------------------------------------------

/// The packed corner decisions of every kernel (row-major), given the
/// diagonal verdict of each.
pub open spec fn kernel_bytes(img: ArgbImage, vs: Seq<DiagonalVerdict>) -> Seq<u8> {
    let w = img.width as int;
    Seq::new(
        (img.width * img.height) as nat,
        |i: int| spec_pack(spec_preprocess(spec_kernel4(img, i % w, i / w), vs[i])),
    )
}

/// The output pixel at column `x`, row `y` of the scaled image.
pub open spec fn scaled_pixel(
    img: ArgbImage,
    scale: int,
    vs: Seq<DiagonalVerdict>,
    jds: Seq<Seq<CornerJudgement>>,
    x: int,
    y: int,
) -> Argb {
    let (bx, by) = (x / scale, y / scale);
    spec_block(img, scale, kernel_bytes(img, vs), jds[by * img.width + bx], bx, by)[(y % scale)
        * scale + x % scale]
}

/// `out` is `img` scaled by `scale` with the diagonal verdicts `vs` and
/// the corner judgements `jds`, and these are answers that `edge` and
/// `judge` gave on the kernels they were asked about.
pub open spec fn scaled_by<
    F: Fn(Kernel4) -> DiagonalVerdict,
    G: Fn(Kernel3) -> CornerJudgement,
>(
    img: ArgbImage,
    scale: int,
    edge: F,
    judge: G,
    vs: Seq<DiagonalVerdict>,
    jds: Seq<Seq<CornerJudgement>>,
    out: ArgbImage,
) -> bool {
    let (w, h) = (img.width as int, img.height as int);
    let kb = kernel_bytes(img, vs);
    &&& vs.len() == w * h
    &&& jds.len() == w * h
    &&& forall|i: int|
        0 <= i < w * h && !corner_is_flat(spec_kernel4(img, i % w, i / w)) ==> edge.ensures(
            (spec_kernel4(img, i % w, i / w),),
            #[trigger] vs[i],
        )
    &&& forall|i: int, r: int|
        0 <= i < w * h && 0 <= r < 4 && corner_active(
            spec_rotate_info(spec_blend_info(kb, i % w, i / w, w), r),
        ) ==> judge.ensures((spec_rotated(spec_kernel3(img, i % w, i / w), r as nat),), #[trigger] jds[i][r])
    &&& out.width == w * scale
    &&& out.height == h * scale
    &&& out.wf()
    &&& forall|i: int|
        0 <= i < out.pixels@.len() ==> #[trigger] out.pixels@[i] == scaled_pixel(
            img,
            scale,
            vs,
            jds,
            i % out.width as int,
            i / out.width as int,
        )
}

proof fn lemma_flat_index(i: int, w: int, n: int)
    requires
        0 <= i < n,
        0 < w,
    ensures
        0 <= i % w < w,
        0 <= i / w,
        (i / w) * w + i % w == i,
{
    lemma_fundamental_div_mod(i, w);
    assert(w * (i / w) == (i / w) * w) by (nonlinear_arith);
    assert(0 <= i / w) by (nonlinear_arith)
        requires
            0 <= i,
            0 < w,
    ;
}

/// Can `src` be scaled by `factor`: a well-formed image, a factor in
/// 2..=6, and an output whose size is a machine integer?
#[verifier::spinoff_prover]
pub fn is_scalable(src: &ArgbImage, factor: u8) -> (b: bool)
    ensures
        b == (src.wf() && 2 <= factor <= 6 && src.width * factor <= usize::MAX && src.height * factor
            <= usize::MAX && (src.width * factor) * (src.height * factor) <= usize::MAX),
{
    let len = src.pixels.len();
    if factor < 2 || factor > 6 {
        return false;
    }
    let f = factor as usize;
    let (w, h) = (src.width, src.height);
    if w > usize::MAX / f || h > usize::MAX / f {
        proof {
            if w > usize::MAX / f {
                assert(w * f > usize::MAX) by (nonlinear_arith)
                    requires
                        f >= 2,
                        w > usize::MAX / f,
                ;
            } else {
                assert(h * f > usize::MAX) by (nonlinear_arith)
                    requires
                        f >= 2,
                        h > usize::MAX / f,
                ;
            }
        }
        return false;
    }
    proof {
        assert(w * f <= usize::MAX && h * f <= usize::MAX) by (nonlinear_arith)
            requires
                f >= 2,
                w <= usize::MAX / f,
                h <= usize::MAX / f,
        ;
    }
    let (dw, dh) = (w * f, h * f);
    if dh != 0 && dw > usize::MAX / dh {
        proof {
            assert(dw * dh > usize::MAX) by (nonlinear_arith)
                requires
                    dh != 0,
                    dw > usize::MAX / dh,
            ;
        }
        return false;
    }
    proof {
        if dh != 0 {
            assert(dw * dh <= usize::MAX) by (nonlinear_arith)
                requires
                    dh != 0,
                    dw <= usize::MAX / dh,
            ;
        }
    }
    if h != 0 && w > usize::MAX / h {
        proof {
            assert(w * h > usize::MAX) by (nonlinear_arith)
                requires
                    h != 0,
                    w > usize::MAX / h,
            ;
        }
        return false;
    }
    proof {
        if h != 0 {
            assert(w * h <= usize::MAX) by (nonlinear_arith)
                requires
                    h != 0,
                    w <= usize::MAX / h,
            ;
        }
        assert(dw == src.width * factor && dh == src.height * factor);
        assert(dh == 0 ==> dw * dh == 0) by (nonlinear_arith);
        assert(dw * dh <= usize::MAX);
        assert((src.width * factor) * (src.height * factor) == dw * dh);
    }
    let b = len == w * h;
    assert(b == src.wf());
    b
}

/// Upscale `src` by `factor` (2..=6) with the xBRZ rules. The colour
/// comparisons are delegated: `edge` compares the weighted distances of the
/// two diagonals of a corner, `judge` makes the similarity judgements of a
/// corner under evaluation. Both are only asked where the rules need them.
pub fn scale_image_with<F: Fn(Kernel4) -> DiagonalVerdict, G: Fn(Kernel3) -> CornerJudgement>(
    src: &ArgbImage,
    factor: u8,
    edge: F,
    judge: G,
) -> (out: ArgbImage)
    requires
        src.wf(),
        2 <= factor <= 6,
        src.width * factor <= usize::MAX,
        src.height * factor <= usize::MAX,
        (src.width * factor) * (src.height * factor) <= usize::MAX,
        forall|k: Kernel4| edge.requires((k,)),
        forall|k: Kernel3| judge.requires((k,)),
    ensures
        out.width == src.width * factor,
        out.height == src.height * factor,
        out.wf(),
        exists|vs: Seq<DiagonalVerdict>, jds: Seq<Seq<CornerJudgement>>|
            #[trigger] scaled_by(*src, factor as int, edge, judge, vs, jds, out),
{
    let scale = factor as usize;
    let (w, h) = (src.width, src.height);
    let dst_width = w * scale;
    let dst_height = h * scale;
    assert(w * h <= dst_width * dst_height) by (nonlinear_arith)
        requires
            dst_width == w * scale,
            dst_height == h * scale,
            scale >= 2,
    ;
    let n = w * h;
    let table = ScaleTable::for_scale(scale);

    // Step 1: preprocess every 4x4 kernel once and record the corner blend
    // decisions for its center pixel.
    let mut kernels: Vec<u8> = Vec::new();
    let ghost mut vs: Seq<DiagonalVerdict> = seq![];
    let mut i: usize = 0;
    while i < n
        invariant
            i <= n,
            n == w * h,
            w == src.width,
            h == src.height,
            src.wf(),
            kernels@.len() == i,
            vs.len() == i,
            forall|k: Kernel4| edge.requires((k,)),
            forall|j: int|
                0 <= j < i ==> #[trigger] kernels@[j] == spec_pack(
                    spec_preprocess(spec_kernel4(*src, j % w as int, j / w as int), vs[j]),
                ),
            forall|j: int|
                0 <= j < i && !corner_is_flat(spec_kernel4(*src, j % w as int, j / w as int))
                    ==> edge.ensures((spec_kernel4(*src, j % w as int, j / w as int),), #[trigger] vs[j]),
        decreases n - i,
    {
        let x = i % w;
        let y = i / w;
        proof {
            lemma_flat_index(i as int, w as int, n as int);
            assert(y < h) by (nonlinear_arith)
                requires
                    y * w + x == i,
                    i < n,
                    n == w * h,
                    0 <= x,
            ;
        }
        let k4 = build_kernel4(src, x, y);
        let verdict = if needs_verdict(&k4) {
            edge(k4)
        } else {
            DiagonalVerdict::Balanced
        };
        kernels.push(pack_kernel_result(preprocess_corners(&k4, verdict)));
        proof {
            vs = vs.push(verdict);
        }
        i += 1;
    }
    assert(kernels@ =~= kernel_bytes(*src, vs));

    // Step 2: for each input pixel, fill its scale x scale block and blend
    // any corners that need it.
    let mut blocks: Vec<Vec<Argb>> = Vec::new();
    let ghost mut jds: Seq<Seq<CornerJudgement>> = seq![];
    let mut i: usize = 0;
    while i < n
        invariant
            i <= n,
            n == w * h,
            w == src.width,
            h == src.height,
            src.wf(),
            table.holds(),
            table.scale == scale,
            kernels@ == kernel_bytes(*src, vs),
            blocks@.len() == i,
            jds.len() == i,
            forall|k: Kernel3| judge.requires((k,)),
            forall|j: int|
                0 <= j < i ==> #[trigger] blocks@[j]@ == spec_block(
                    *src,
                    scale as int,
                    kernels@,
                    jds[j],
                    j % w as int,
                    j / w as int,
                ),
            forall|j: int| 0 <= j < i ==> (#[trigger] jds[j]).len() == 4,
            forall|j: int, r: int|
                0 <= j < i && 0 <= r < 4 && corner_active(
                    spec_rotate_info(spec_blend_info(kernels@, j % w as int, j / w as int, w as int), r),
                ) ==> judge.ensures(
                    (spec_rotated(spec_kernel3(*src, j % w as int, j / w as int), r as nat),),
                    #[trigger] jds[j][r],
                ),
        decreases n - i,
    {
        let x = i % w;
        let y = i / w;
        proof {
            lemma_flat_index(i as int, w as int, n as int);
            assert(y < h) by (nonlinear_arith)
                requires
                    y * w + x == i,
                    i < n,
                    n == w * h,
                    0 <= x,
            ;
        }
        let (block, Ghost(jd)) = render_block(src, &table, &kernels, x, y, &judge);
        blocks.push(block);
        proof {
            jds = jds.push(jd);
        }
        i += 1;
    }

    // Step 3: lay the blocks out row by row.
    let total = dst_width * dst_height;
    let mut pixels: Vec<Argb> = Vec::new();
    let mut p: usize = 0;
    while p < total
        invariant
            p <= total,
            total == dst_width * dst_height,
            dst_width == w * scale,
            dst_height == h * scale,
            n == w * h,
            2 <= scale <= 6,
            w == src.width,
            h == src.height,
            kernels@ == kernel_bytes(*src, vs),
            blocks@.len() == n,
            jds.len() == n,
            forall|j: int|
                0 <= j < n ==> #[trigger] blocks@[j]@ == spec_block(
                    *src,
                    scale as int,
                    kernels@,
                    jds[j],
                    j % w as int,
                    j / w as int,
                ),
            forall|j: int| 0 <= j < n ==> (#[trigger] jds[j]).len() == 4,
            pixels@.len() == p,
            forall|q: int|
                0 <= q < p ==> #[trigger] pixels@[q] == scaled_pixel(
                    *src,
                    scale as int,
                    vs,
                    jds,
                    q % dst_width as int,
                    q / dst_width as int,
                ),
        decreases total - p,
    {
        let xx = p % dst_width;
        let yy = p / dst_width;
        proof {
            lemma_flat_index(p as int, dst_width as int, total as int);
            assert(yy < dst_height) by (nonlinear_arith)
                requires
                    yy * dst_width + xx == p,
                    p < total,
                    total == dst_width * dst_height,
                    0 <= xx,
            ;
        }
        let bx = xx / scale;
        let by = yy / scale;
        assert((yy % scale) * scale + xx % scale < 36) by (nonlinear_arith)
            requires
                2 <= scale <= 6,
        ;
        let sub = (yy % scale) * scale + xx % scale;
        proof {
            assert(bx < w && by < h) by (nonlinear_arith)
                requires
                    xx < dst_width,
                    yy < dst_height,
                    dst_width == w * scale,
                    dst_height == h * scale,
                    bx == xx / scale,
                    by == yy / scale,
                    scale >= 2,
            ;
            lemma_index_in_bounds(bx as int, by as int, w as int, h as int);
        }
        let bi = by * w + bx;
        proof {
            lemma_fundamental_div_mod_converse(bi as int, w as int, by as int, bx as int);
            assert(sub < scale * scale) by (nonlinear_arith)
                requires
                    sub == (yy % scale) * scale + xx % scale,
                    scale >= 2,
            ;
            lemma_block_len(*src, scale as int, kernels@, jds[bi as int], bx as int, by as int);
            assert(blocks@[bi as int]@.len() == scale * scale);
        }
        pixels.push(blocks[bi][sub]);
        p += 1;
    }
    let out = ArgbImage::new(dst_width, dst_height, pixels);
    assert(out.pixels@.len() == out.width * out.height);
    assert(forall|i: int|
        0 <= i < out.pixels@.len() ==> #[trigger] out.pixels@[i] == scaled_pixel(
            *src,
            factor as int,
            vs,
            jds,
            i % out.width as int,
            i / out.width as int,
        ));
    assert(scaled_by(*src, factor as int, edge, judge, vs, jds, out));
    out
}

// ---------------------------------------------------------------------------
// Laws
// ---------------------------------------------------------------------------

/// No corner of the image needs a colour decision: in every kernel, two
/// opposite sides of the bottom-right corner carry one colour each.
pub open spec fn all_corners_flat(img: ArgbImage) -> bool {
    forall|x: int, y: int|
        0 <= x < img.width && 0 <= y < img.height ==> corner_is_flat(
            #[trigger] spec_kernel4(img, x, y),
        )
}

/// Every row of the image holds a single colour.
pub open spec fn rows_constant(img: ArgbImage) -> bool {
    forall|x: int, y: int|
        0 <= x < img.width && 0 <= y < img.height ==> #[trigger] img.at(x, y) == img.at(0, y)
}

/// Every column of the image holds a single colour.
pub open spec fn columns_constant(img: ArgbImage) -> bool {
    forall|x: int, y: int|
        0 <= x < img.width && 0 <= y < img.height ==> #[trigger] img.at(x, y) == img.at(x, 0)
}

/// Every pixel of the image has colour `c`.
pub open spec fn uniform(img: ArgbImage, c: Argb) -> bool {
    forall|i: int| 0 <= i < img.pixels@.len() ==> #[trigger] img.pixels@[i] == c
}

/// A row-constant image has only flat corners.
pub proof fn lemma_rows_constant_flat(img: ArgbImage)
    requires
        img.wf(),
        rows_constant(img),
    ensures
        all_corners_flat(img),
{
    assert forall|x: int, y: int| 0 <= x < img.width && 0 <= y < img.height implies corner_is_flat(
        #[trigger] spec_kernel4(img, x, y),
    ) by {
        let xp1 = upper(x, img.width as int);
        let yp1 = upper(y, img.height as int);
        assert(img.at(x, y) == img.at(0, y));
        assert(img.at(xp1, y) == img.at(0, y));
        assert(img.at(x, yp1) == img.at(0, yp1));
        assert(img.at(xp1, yp1) == img.at(0, yp1));
    }
}

/// A column-constant image has only flat corners.
pub proof fn lemma_columns_constant_flat(img: ArgbImage)
    requires
        img.wf(),
        columns_constant(img),
    ensures
        all_corners_flat(img),
{
    assert forall|x: int, y: int| 0 <= x < img.width && 0 <= y < img.height implies corner_is_flat(
        #[trigger] spec_kernel4(img, x, y),
    ) by {
        let xp1 = upper(x, img.width as int);
        let yp1 = upper(y, img.height as int);
        assert(img.at(x, y) == img.at(x, 0));
        assert(img.at(x, yp1) == img.at(x, 0));
        assert(img.at(xp1, y) == img.at(xp1, 0));
        assert(img.at(xp1, yp1) == img.at(xp1, 0));
    }
}

/// A uniform image is both row- and column-constant.
pub proof fn lemma_uniform_rows_constant(img: ArgbImage, c: Argb)
    requires
        img.wf(),
        uniform(img, c),
    ensures
        rows_constant(img),
        columns_constant(img),
{
    assert forall|x: int, y: int| 0 <= x < img.width && 0 <= y < img.height implies #[trigger] img.at(
        x,
        y,
    ) == img.at(0, y) && img.at(x, y) == img.at(x, 0) by {
        lemma_index_in_bounds(x, y, img.width as int, img.height as int);
        lemma_index_in_bounds(0, y, img.width as int, img.height as int);
        lemma_index_in_bounds(x, 0, img.width as int, img.height as int);
    }
}

/// With only flat corners, every scaled block is its pixel's colour,
/// whatever the colour judgements say.
pub proof fn lemma_flat_block(
    img: ArgbImage,
    scale: int,
    vs: Seq<DiagonalVerdict>,
    jds: Seq<CornerJudgement>,
    x: int,
    y: int,
)
    requires
        img.wf(),
        all_corners_flat(img),
        2 <= scale <= 6,
        0 <= x < img.width,
        0 <= y < img.height,
    ensures
        spec_block(img, scale, kernel_bytes(img, vs), jds, x, y) == Seq::new(
            (scale * scale) as nat,
            |_i: int| img.at(x, y),
        ),
{
    let (w, h) = (img.width as int, img.height as int);
    let kb = kernel_bytes(img, vs);
    assert forall|i: int| 0 <= i < w * h implies #[trigger] kb[i] == 0 by {
        lemma_flat_index(i, w, w * h);
        assert(i / w < h) by (nonlinear_arith)
            requires
                (i / w) * w + i % w == i,
                i < w * h,
                0 <= i % w,
                0 < w,
        ;
        assert(corner_is_flat(spec_kernel4(img, i % w, i / w)));
    }
    lemma_index_in_bounds(x, y, w, h);
    if y > 0 {
        lemma_index_in_bounds(x, y - 1, w, h);
        assert((y - 1) * w + x == y * w + x - w) by (nonlinear_arith);
    }
    assert(spec_blend_info(kb, x, y, w) == 0);
    lemma_rotations_idle(
        Seq::new((scale * scale) as nat, |_i: int| img.at(x, y)),
        spec_kernel3(img, x, y),
        jds,
        scale,
        4,
    );
}

/// Law: when no corner of the image needs a colour decision (in particular
/// for an image whose rows, or whose columns, are each one colour, and for
/// a uniform image), xBRZ scaling is plain pixel replication: every output
/// pixel is the input pixel whose block it lies in.
pub proof fn law_flat_corners_replicate<
    F: Fn(Kernel4) -> DiagonalVerdict,
    G: Fn(Kernel3) -> CornerJudgement,
>(
    img: ArgbImage,
    scale: int,
    edge: F,
    judge: G,
    vs: Seq<DiagonalVerdict>,
    jds: Seq<Seq<CornerJudgement>>,
    out: ArgbImage,
)
    requires
        img.wf(),
        2 <= scale <= 6,
        scaled_by(img, scale, edge, judge, vs, jds, out),
        all_corners_flat(img),
    ensures
        forall|i: int|
            0 <= i < out.pixels@.len() ==> #[trigger] out.pixels@[i] == img.at(
                (i % out.width as int) / scale,
                (i / out.width as int) / scale,
            ),
{
    assert forall|i: int| 0 <= i < out.pixels@.len() implies #[trigger] out.pixels@[i] == img.at(
        (i % out.width as int) / scale,
        (i / out.width as int) / scale,
    ) by {
        let ow = out.width as int;
        let (w, h) = (img.width as int, img.height as int);
        assert(ow > 0) by (nonlinear_arith)
            requires
                0 <= i < ow * out.height,
                ow >= 0,
        ;
        lemma_flat_index(i, ow, out.pixels@.len() as int);
        let (xx, yy) = (i % ow, i / ow);
        assert(yy < out.height) by (nonlinear_arith)
            requires
                yy * ow + xx == i,
                i < ow * out.height,
                0 <= xx,
                ow > 0,
        ;
        let (bx, by) = (xx / scale, yy / scale);
        assert(0 <= bx < w && 0 <= by < h) by (nonlinear_arith)
            requires
                0 <= xx < w * scale,
                0 <= yy < h * scale,
                bx == xx / scale,
                by == yy / scale,
                scale >= 2,
        ;
        lemma_flat_block(img, scale, vs, jds[by * w + bx], bx, by);
        assert((yy % scale) * scale + xx % scale < scale * scale) by (nonlinear_arith)
            requires
                scale >= 2,
        ;
        assert(0 <= (yy % scale) * scale + xx % scale) by (nonlinear_arith)
            requires
                scale >= 2,
        ;
    }
}

/// `edge` and `judge` answer as functions of the kernel they are asked
/// about: no kernel has two possible answers.
pub open spec fn decides_consistently<F: Fn(Kernel4) -> DiagonalVerdict, G: Fn(Kernel3) -> CornerJudgement>(
    edge: F,
    judge: G,
) -> bool {
    &&& forall|k: Kernel4, v1: DiagonalVerdict, v2: DiagonalVerdict|
        #[trigger] edge.ensures((k,), v1) && #[trigger] edge.ensures((k,), v2) ==> v1 == v2
    &&& forall|k: Kernel3, j1: CornerJudgement, j2: CornerJudgement|
        #[trigger] judge.ensures((k,), j1) && #[trigger] judge.ensures((k,), j2) ==> j1 == j2
}

/// The rotations of a block depend on the judgements of the corners that
/// are blended only.
proof fn lemma_rotations_same(
    block: Seq<Argb>,
    ker: Kernel3,
    info: u8,
    jds1: Seq<CornerJudgement>,
    jds2: Seq<CornerJudgement>,
    scale: int,
    count: nat,
)
    requires
        forall|r: int|
            0 <= r < count && corner_active(spec_rotate_info(info, r)) ==> jds1[r] == jds2[r],
    ensures
        spec_rotations(block, ker, info, jds1, scale, count) == spec_rotations(block, ker, info, jds2, scale, count),
    decreases count,
{
    if count > 0 {
        lemma_rotations_same(block, ker, info, jds1, jds2, scale, (count - 1) as nat);
        let r = count - 1;
        let b = spec_rotate_info(info, r);
        if corner_active(b) {
            assert(jds1[r] == jds2[r]);
        } else {
            assert(spec_choice(spec_rotated(ker, r as nat), b, jds1[r]) is None);
            assert(spec_choice(spec_rotated(ker, r as nat), b, jds2[r]) is None);
        }
    }
}

/// Law: xBRZ scaling is a function of the image, the factor and the
/// answers of the colour metric: when `edge` and `judge` answer
/// consistently, any two scalings of one image by one factor are equal.
#[verifier::spinoff_prover]
pub proof fn law_scaling_deterministic<F: Fn(Kernel4) -> DiagonalVerdict, G: Fn(Kernel3) -> CornerJudgement>(
    img: ArgbImage,
    scale: int,
    edge: F,
    judge: G,
    vs1: Seq<DiagonalVerdict>,
    jds1: Seq<Seq<CornerJudgement>>,
    out1: ArgbImage,
    vs2: Seq<DiagonalVerdict>,
    jds2: Seq<Seq<CornerJudgement>>,
    out2: ArgbImage,
)
    requires
        img.wf(),
        2 <= scale <= 6,
        decides_consistently(edge, judge),
        scaled_by(img, scale, edge, judge, vs1, jds1, out1),
        scaled_by(img, scale, edge, judge, vs2, jds2, out2),
    ensures
        out1.width == out2.width,
        out1.height == out2.height,
        out1.pixels@ == out2.pixels@,
{
    let (w, h) = (img.width as int, img.height as int);
    let kb = kernel_bytes(img, vs1);
    assert(kb =~= kernel_bytes(img, vs2)) by {
        assert forall|i: int| 0 <= i < w * h implies kb[i] == #[trigger] kernel_bytes(img, vs2)[i] by {
            let k = spec_kernel4(img, i % w, i / w);
            if !corner_is_flat(k) {
                assert(edge.ensures((k,), vs1[i]));
                assert(edge.ensures((k,), vs2[i]));
            }
        }
    }
    let ow = out1.width as int;
    assert forall|i: int| 0 <= i < out1.pixels@.len() implies #[trigger] out1.pixels@[i] == out2.pixels@[i] by {
        assert(ow > 0) by (nonlinear_arith)
            requires
                0 <= i < ow * out1.height,
                ow >= 0,
        ;
        lemma_flat_index(i, ow, out1.pixels@.len() as int);
        let (xx, yy) = (i % ow, i / ow);
        assert(yy < out1.height) by (nonlinear_arith)
            requires
                yy * ow + xx == i,
                i < ow * out1.height,
                0 <= xx,
                ow > 0,
        ;
        let (bx, by) = (xx / scale, yy / scale);
        assert(0 <= bx < w && 0 <= by < h) by (nonlinear_arith)
            requires
                0 <= xx < w * scale,
                0 <= yy < h * scale,
                bx == xx / scale,
                by == yy / scale,
                scale >= 2,
        ;
        let b = by * w + bx;
        lemma_index_in_bounds(bx, by, w, h);
        lemma_fundamental_div_mod_converse(b, w, by, bx);
        let info = spec_blend_info(kb, bx, by, w);
        assert forall|r: int| 0 <= r < 4 && corner_active(spec_rotate_info(info, r)) implies jds1[b][r] == jds2[b][r] by {
            let k = spec_rotated(spec_kernel3(img, bx, by), r as nat);
            assert(judge.ensures((k,), jds1[b][r]));
            assert(judge.ensures((k,), jds2[b][r]));
        }
        lemma_rotations_same(
            Seq::new((scale * scale) as nat, |_i: int| img.at(bx, by)),
            spec_kernel3(img, bx, by),
            info,
            jds1[b],
            jds2[b],
            scale,
            4,
        );
    }
    assert(out1.pixels@ =~= out2.pixels@);
}

// ---------------------------------------------------------------------------
// Laws of the rotations and of the packed corner decisions
// ---------------------------------------------------------------------------

/// Four two-bit fields packed into a byte read back as themselves.
proof fn lemma_fields(f0: int, f1: int, f2: int, f3: int)
    requires
        0 <= f0 < 4,
        0 <= f1 < 4,
        0 <= f2 < 4,
        0 <= f3 < 4,
    ensures
        ({
            let b = (f0 + 4 * f1 + 16 * f2 + 64 * f3) as u8;
            &&& field(b, 0) == f0
            &&& field(b, 1) == f1
            &&& field(b, 2) == f2
            &&& field(b, 3) == f3
        }),
{
    let v = f0 + 4 * f1 + 16 * f2 + 64 * f3;
    assert(0 <= v < 256);
    assert(v % 4 == f0 && (v / 4) % 4 == f1 && (v / 16) % 4 == f2 && v / 64 == f3) by (nonlinear_arith)
        requires
            v == f0 + 4 * f1 + 16 * f2 + 64 * f3,
            0 <= f0 < 4,
            0 <= f1 < 4,
            0 <= f2 < 4,
            0 <= f3 < 4,
    ;
}

proof fn lemma_field_range(b: u8, i: int)
    ensures
        0 <= field(b, i) < 4,
{
}

/// Law: packing a corner's four decisions keeps each one in its own field:
/// `f` in field 0, `g` in field 1, `j` in field 2 and `k` in field 3.
pub proof fn law_pack_fields(r: CornerBlend)
    ensures
        field(spec_pack(r), 0) == blend_code(r.f),
        field(spec_pack(r), 1) == blend_code(r.g),
        field(spec_pack(r), 2) == blend_code(r.j),
        field(spec_pack(r), 3) == blend_code(r.k),
{
    lemma_fields(blend_code(r.f), blend_code(r.g), blend_code(r.j), blend_code(r.k));
}

/// Law: rotating a blend-info byte `r` places moves every field up by `r`:
/// field `i` of the result is field `i - r` (mod 4) of the byte.
pub proof fn law_info_rotation(b: u8, r: int)
    requires
        0 <= r < 4,
    ensures
        forall|i: int| 0 <= i < 4 ==> #[trigger] field(spec_rotate_info(b, r), i) == field(b, (i - r + 4) % 4),
{
    lemma_field_range(b, (4 - r) % 4);
    lemma_field_range(b, (5 - r) % 4);
    lemma_field_range(b, (6 - r) % 4);
    lemma_field_range(b, (7 - r) % 4);
    lemma_fields(field(b, (4 - r) % 4), field(b, (5 - r) % 4), field(b, (6 - r) % 4), field(b, (7 - r) % 4));
}

/// The eight outer pixels of a kernel, clockwise from the top-left one.
pub open spec fn ring(k: Kernel3) -> Seq<Argb> {
    seq![k.a, k.b, k.c, k.f, k.i, k.h, k.g, k.d]
}

/// The pixel of a kernel at `row`, `col` (each 0..3).
pub open spec fn kernel_at(k: Kernel3, row: int, col: int) -> Argb {
    if row == 0 {
        if col == 0 { k.a } else if col == 1 { k.b } else { k.c }
    } else if row == 1 {
        if col == 0 { k.d } else if col == 1 { k.e } else { k.f }
    } else {
        if col == 0 { k.g } else if col == 1 { k.h } else { k.i }
    }
}

/// Law: a quarter turn of a kernel keeps its centre and moves every outer
/// pixel two places clockwise around the ring; four quarter turns give the
/// kernel back; and the quarter turn agrees with the rotation of block
/// positions: the pixel at a position of the turned kernel is the pixel of
/// the kernel at that position rotated one step.
pub proof fn law_kernel_rotation(k: Kernel3)
    ensures
        spec_rotate90(k).e == k.e,
        forall|t: int| 0 <= t < 8 ==> #[trigger] ring(spec_rotate90(k))[(t + 2) % 8] == ring(k)[t],
        spec_rotated(k, 4) == k,
        forall|row: int, col: int|
            0 <= row < 3 && 0 <= col < 3 ==> #[trigger] kernel_at(spec_rotate90(k), row, col) == kernel_at(
                k,
                spec_rotate_pos(1, 3, row, col).0,
                spec_rotate_pos(1, 3, row, col).1,
            ),
{
    reveal_with_fuel(spec_rotated, 5);
    assert forall|t: int| 0 <= t < 8 implies #[trigger] ring(spec_rotate90(k))[(t + 2) % 8] == ring(k)[t] by {
        if t < 6 {
            vstd::arithmetic::div_mod::lemma_small_mod((t + 2) as nat, 8);
        } else {
            vstd::arithmetic::div_mod::lemma_fundamental_div_mod_converse(t + 2, 8, 1, t - 6);
        }
    }
}

/// Law: rotating a block position keeps it inside the block, one step
/// more turns a rotated position one step further, and four steps bring it
/// back.
pub proof fn law_position_rotation(scale: int, r: int, i: int, j: int)
    requires
        0 <= r < 4,
        0 <= i < scale,
        0 <= j < scale,
    ensures
        0 <= spec_rotate_pos(r, scale, i, j).0 < scale,
        0 <= spec_rotate_pos(r, scale, i, j).1 < scale,
        spec_rotate_pos(0, scale, i, j) == (i, j),
        ({
            let p = spec_rotate_pos(r, scale, i, j);
            let q = spec_rotate_pos(1, scale, p.0, p.1);
            q == if r < 3 {
                spec_rotate_pos(r + 1, scale, i, j)
            } else {
                (i, j)
            }
        }),
{
}

/// Law: corners along the image border are never blended, and every
/// corner of a pixel takes its decision from the kernel that owns that
/// corner: the bottom-right corner from the pixel's own kernel, the
/// bottom-left from the kernel to its left, the top-right from the kernel
/// above and the top-left from the kernel above-left.
pub proof fn law_corner_sources(kernels: Seq<u8>, x: int, y: int, w: int)
    requires
        0 <= x < w,
        0 <= y,
        (y + 1) * w <= kernels.len(),
    ensures
        ({
            let info = spec_blend_info(kernels, x, y, w);
            &&& field(info, 2) == field(kernels[y * w + x], 0)
            &&& field(info, 3) == if x > 0 { field(kernels[y * w + x - 1], 1) } else { 0 }
            &&& field(info, 1) == if y > 0 { field(kernels[(y - 1) * w + x], 2) } else { 0 }
            &&& field(info, 0) == if x > 0 && y > 0 { field(kernels[(y - 1) * w + (x - 1)], 3) } else { 0 }
        }),
{
    let tl = if y > 0 && x > 0 {
        field(kernels[(y - 1) * w + (x - 1)], 3)
    } else {
        0
    };
    let tr = if y > 0 {
        field(kernels[(y - 1) * w + x], 2)
    } else {
        0
    };
    let br = field(kernels[y * w + x], 0);
    let bl = if x > 0 {
        field(kernels[y * w + x - 1], 1)
    } else {
        0
    };
    lemma_field_range(kernels[(y - 1) * w + (x - 1)], 3);
    lemma_field_range(kernels[(y - 1) * w + x], 2);
    lemma_field_range(kernels[y * w + x], 0);
    lemma_field_range(kernels[y * w + x - 1], 1);
    lemma_fields(tl, tr, br, bl);
}

// ---------------------------------------------------------------------------
// Law of the colour gradient
// ---------------------------------------------------------------------------

proof fn lemma_unpack(r: u8, g: u8, b: u8, a: u8)
    ensures
        Argb(packed(r, g, b, a)).red() == r,
        Argb(packed(r, g, b, a)).green() == g,
        Argb(packed(r, g, b, a)).blue() == b,
        Argb(packed(r, g, b, a)).alpha() == a,
{
    let v = a * 0x100_0000 + r * 0x1_0000 + g * 0x100 + b;
    assert(0 <= v <= u32::MAX) by (nonlinear_arith)
        requires
            v == a * 0x100_0000 + r * 0x1_0000 + g * 0x100 + b,
            0 <= a < 256,
            0 <= r < 256,
            0 <= g < 256,
            0 <= b < 256,
    ;
    assert((v / 0x1_0000) % 0x100 == r && (v / 0x100) % 0x100 == g && v % 0x100 == b && v / 0x100_0000 == a)
        by (nonlinear_arith)
        requires
            v == a * 0x100_0000 + r * 0x1_0000 + g * 0x100 + b,
            0 <= a < 256,
            0 <= r < 256,
            0 <= g < 256,
            0 <= b < 256,
    ;
}

/// A weighted average of two values lies between them.
proof fn lemma_weighted(x: int, y: int, wx: int, wy: int)
    requires
        0 <= x,
        0 <= y,
        0 <= wx,
        0 <= wy,
        wx + wy > 0,
    ensures
        (if x <= y { x } else { y }) <= (x * wx + y * wy) / (wx + wy) <= (if x <= y { y } else { x }),
        wy == 0 ==> (x * wx + y * wy) / (wx + wy) == x,
        wx == 0 ==> (x * wx + y * wy) / (wx + wy) == y,
{
    let lo = if x <= y { x } else { y };
    let hi = if x <= y { y } else { x };
    let s = wx + wy;
    let v = x * wx + y * wy;
    assert(lo * s <= v <= hi * s) by (nonlinear_arith)
        requires
            lo <= x <= hi,
            lo <= y <= hi,
            0 <= wx,
            0 <= wy,
            s == wx + wy,
            v == x * wx + y * wy,
    ;
    assert(lo <= v / s <= hi) by (nonlinear_arith)
        requires
            lo * s <= v <= hi * s,
            s > 0,
            0 <= lo,
    ;
    if wy == 0 {
        assert(v / s == x) by (nonlinear_arith)
            requires
                v == x * s,
                s > 0,
        ;
    }
    if wx == 0 {
        assert(v / s == y) by (nonlinear_arith)
            requires
                v == y * s,
                s > 0,
        ;
    }
}

/// Law: a gradient step mixes the front and the back colour by weight.
/// Every colour channel of the result lies between the two colours'
/// channels, weighted by alpha, and its alpha between their alphas; with all
/// the weight on the front colour (`m == n`) the result has the front
/// colour's channels, with none (`m == 0`) the back colour's, each as long as
/// that colour is not fully transparent; and two fully transparent
/// colours mix to transparent black.
pub proof fn law_gradient(m: u32, n: u32, front: Argb, back: Argb)
    requires
        gradient_fits(m, n, front, back),
        n > 0,
    ensures
        ({
            let c = spec_gradient(m, n, front, back);
            let wf = front.alpha() * m;
            let wb = back.alpha() * (n - m);
            &&& wf + wb == 0 ==> c == Argb(0)
            &&& wf + wb > 0 ==> {
                &&& (if front.red() <= back.red() { front.red() } else { back.red() }) <= c.red()
                    <= (if front.red() <= back.red() { back.red() } else { front.red() })
                &&& (if front.green() <= back.green() { front.green() } else { back.green() }) <= c.green()
                    <= (if front.green() <= back.green() { back.green() } else { front.green() })
                &&& (if front.blue() <= back.blue() { front.blue() } else { back.blue() }) <= c.blue()
                    <= (if front.blue() <= back.blue() { back.blue() } else { front.blue() })
                &&& (if front.alpha() <= back.alpha() { front.alpha() } else { back.alpha() }) <= c.alpha()
                    <= (if front.alpha() <= back.alpha() { back.alpha() } else { front.alpha() })
            }
            &&& m == n && front.alpha() != 0 ==> c.red() == front.red() && c.green() == front.green()
                && c.blue() == front.blue() && c.alpha() == front.alpha()
            &&& m == 0 && back.alpha() != 0 ==> c.red() == back.red() && c.green() == back.green()
                && c.blue() == back.blue() && c.alpha() == back.alpha()
        }),
{
    let wf = front.alpha() * m;
    let wb = back.alpha() * (n - m);
    assert(0 <= wf && 0 <= wb) by (nonlinear_arith)
        requires
            wf == front.alpha() * m,
            wb == back.alpha() * (n - m),
            m <= n,
    ;
    assert((m == n && front.alpha() != 0 ==> wf > 0) && (m == 0 && back.alpha() != 0 ==> wb > 0))
        by (nonlinear_arith)
        requires
            wf == front.alpha() * m,
            wb == back.alpha() * (n - m),
            n > 0,
    ;
    if wf + wb > 0 {
        assert(front.red() < 256 && front.green() < 256 && front.blue() < 256);
        assert(back.red() < 256 && back.green() < 256 && back.blue() < 256);
        assert(front.alpha() < 256 && back.alpha() < 256);
        lemma_weighted(front.red() as int, back.red() as int, wf, wb);
        lemma_weighted(front.green() as int, back.green() as int, wf, wb);
        lemma_weighted(front.blue() as int, back.blue() as int, wf, wb);
        lemma_weighted(front.alpha() as int, back.alpha() as int, m as int, (n - m) as int);
        assert(front.alpha() * m + back.alpha() * (n - m) == wf + wb);
        let r = ((front.red() * wf + back.red() * wb) / (wf + wb)) as u8;
        let g = ((front.green() * wf + back.green() * wb) / (wf + wb)) as u8;
        let b = ((front.blue() * wf + back.blue() * wb) / (wf + wb)) as u8;
        let a = ((wf + wb) / (n as int)) as u8;
        assert(front.alpha() * m + back.alpha() * (n - m) == front.alpha() * m + back.alpha() * (n - m));
        lemma_unpack(r, g, b, a);
        if m == n {
            assert(wb == 0) by (nonlinear_arith)
                requires
                    wb == back.alpha() * (n - m),
                    m == n,
            ;
        }
        if m == 0 {
            assert(wf == 0) by (nonlinear_arith)
                requires
                    wf == front.alpha() * m,
                    m == 0,
            ;
        }
    }
}

// ---------------------------------------------------------------------------
// Laws of the blend tables
// ---------------------------------------------------------------------------

/// An operation mirrored across the block's main diagonal.
pub open spec fn transposed(op: Op) -> Op {
    Op { kind: op.kind, i: op.j, j: op.i }
}

proof fn lemma_table_shape(scale: int, p: BlendPattern)
    requires
        2 <= scale <= 6,
    ensures
        forall|k: int|
            0 <= k < spec_ops(scale, p).len() ==> #[trigger] spec_ops(scale, p)[k].i + spec_ops(scale, p)[k].j
                >= scale - 1,
        exists|k: int|
            0 <= k < spec_ops(scale, p).len() && #[trigger] spec_ops(scale, p)[k].i == scale - 1 && spec_ops(
                scale,
                p,
            )[k].j == scale - 1,
{
    let ops = spec_ops(scale, p);
    let last = ops.len() - 1;
    if scale == 2 {
        assert(ops[last].i == 1 && ops[last].j == 1);
    } else if scale == 3 {
        assert(ops[last].i == 2 && ops[last].j == 2);
    } else {
        assert(exists|k: int| 0 <= k < ops.len() && #[trigger] ops[k].i == scale - 1 && ops[k].j == scale - 1) by {
            if scale == 4 {
                match p {
                    BlendPattern::LineSteepAndShallow => assert(ops[5].i == 3 && ops[5].j == 3),
                    BlendPattern::Corner => assert(ops[0].i == 3 && ops[0].j == 3),
                    _ => assert(ops[last].i == 3 && ops[last].j == 3),
                }
            } else if scale == 5 {
                match p {
                    BlendPattern::LineShallow => assert(ops[7].i == 4 && ops[7].j == 4),
                    BlendPattern::LineSteep => assert(ops[7].i == 4 && ops[7].j == 4),
                    BlendPattern::LineSteepAndShallow => assert(ops[9].i == 4 && ops[9].j == 4),
                    BlendPattern::LineDiagonal => assert(ops[5].i == 4 && ops[5].j == 4),
                    BlendPattern::Corner => assert(ops[0].i == 4 && ops[0].j == 4),
                }
            } else {
                match p {
                    BlendPattern::LineShallow => assert(ops[9].i == 5 && ops[9].j == 5),
                    BlendPattern::LineSteep => assert(ops[9].i == 5 && ops[9].j == 5),
                    BlendPattern::LineSteepAndShallow => assert(ops[11].i == 5 && ops[11].j == 5),
                    BlendPattern::LineDiagonal => assert(ops[4].i == 5 && ops[4].j == 5),
                    BlendPattern::Corner => assert(ops[0].i == 5 && ops[0].j == 5),
                }
            }
        }
    }
}

/// Law: the blend tables. For every scale factor from 2 to 6 and every
/// pattern:
///
/// - each operation lies inside the block and blends by a proper fraction;
/// - each lies on or below the anti-diagonal of the block, in the triangle
///   of the corner being blended;
/// - the corner subpixel itself is always among the subpixels written;
/// - the steep line is the shallow line mirrored across the block's main
///   diagonal, operation for operation.
pub proof fn law_blend_tables(scale: int, p: BlendPattern)
    requires
        2 <= scale <= 6,
    ensures
        ops_wf(spec_ops(scale, p), scale),
        forall|k: int|
            0 <= k < spec_ops(scale, p).len() ==> #[trigger] spec_ops(scale, p)[k].i + spec_ops(scale, p)[k].j
                >= scale - 1,
        exists|k: int|
            0 <= k < spec_ops(scale, p).len() && #[trigger] spec_ops(scale, p)[k].i == scale - 1 && spec_ops(
                scale,
                p,
            )[k].j == scale - 1,
        spec_ops(scale, BlendPattern::LineSteep) == spec_ops(scale, BlendPattern::LineShallow).map_values(
            |op: Op| transposed(op),
        ),
{
    lemma_ops_wf(scale, p);
    lemma_table_shape(scale, p);
    let sh = spec_ops(scale, BlendPattern::LineShallow);
    let st = spec_ops(scale, BlendPattern::LineSteep);
    assert(st =~= sh.map_values(|op: Op| transposed(op)));
}

/// Law: one blend operation changes only the subpixel it names, rotated
/// into the corner being blended: a replacement writes the line colour
/// there, and a gradient mixes the line colour, as the front colour with
/// weight `m / n`, over what the subpixel held.
pub proof fn law_apply_op(block: Seq<Argb>, op: Op, r: int, scale: int, px: Argb)
    requires
        0 <= r < 4,
        op.i < scale,
        op.j < scale,
        block.len() == scale * scale,
    ensures
        ({
            let pos = spec_rotate_pos(r, scale, op.i as int, op.j as int);
            let idx = pos.0 * scale + pos.1;
            let out = spec_apply_op(block, op, r, scale, px);
            &&& 0 <= idx < scale * scale
            &&& out.len() == block.len()
            &&& forall|q: int| 0 <= q < block.len() && q != idx ==> #[trigger] out[q] == block[q]
            &&& op.kind is Replace ==> out[idx] == px
            &&& op.kind matches OpKind::Grad { m, n } ==> out[idx] == spec_gradient(m, n, px, block[idx])
        }),
{
    law_position_rotation(scale, r, op.i as int, op.j as int);
    let pos = spec_rotate_pos(r, scale, op.i as int, op.j as int);
    assert(0 <= pos.0 * scale + pos.1 < scale * scale) by (nonlinear_arith)
        requires
            0 <= pos.0 < scale,
            0 <= pos.1 < scale,
    ;
}

// ---------------------------------------------------------------------------
// Laws of the kernels
// ---------------------------------------------------------------------------

/// `v` clamped into `0..limit`.
pub open spec fn clamp(v: int, limit: int) -> int {
    if v < 0 {
        0
    } else if v >= limit {
        limit - 1
    } else {
        v
    }
}

/// Law: the 3x3 kernel of pixel `(x, y)` holds, at row `row` and column
/// `col`, the image pixel at offset `(col - 1, row - 1)` from `(x, y)`,
/// with reads beyond the border clamped to the nearest edge pixel.
pub proof fn law_kernel3_layout(img: ArgbImage, x: int, y: int)
    requires
        0 <= x < img.width,
        0 <= y < img.height,
    ensures
        forall|row: int, col: int|
            0 <= row < 3 && 0 <= col < 3 ==> #[trigger] kernel_at(spec_kernel3(img, x, y), row, col) == img.at(
                clamp(x + col - 1, img.width as int),
                clamp(y + row - 1, img.height as int),
            ),
{
}

/// Law: the 4x4 neighbourhood of pixel `(x, y)` holds each image pixel at
/// its offset from `f = (x, y)`, with reads beyond the border clamped to
/// the nearest edge pixel: `b, c` one row up, `e, f, g, h` in the row of
/// `f`, `i, j, k, l` one row down and `n, o` two rows down, starting one
/// column left of `f` for `e` and `i`, at `f`'s column for `b`, `j` and
/// `n`.
pub proof fn law_kernel4_layout(img: ArgbImage, x: int, y: int)
    requires
        0 <= x < img.width,
        0 <= y < img.height,
    ensures
        ({
            let k = spec_kernel4(img, x, y);
            let (w, h) = (img.width as int, img.height as int);
            let at = |dx: int, dy: int| img.at(clamp(x + dx, w), clamp(y + dy, h));
            &&& k.b == at(0, -1)
            &&& k.c == at(1, -1)
            &&& k.e == at(-1, 0)
            &&& k.f == at(0, 0)
            &&& k.g == at(1, 0)
            &&& k.h == at(2, 0)
            &&& k.i == at(-1, 1)
            &&& k.j == at(0, 1)
            &&& k.k == at(1, 1)
            &&& k.l == at(2, 1)
            &&& k.n == at(0, 2)
            &&& k.o == at(1, 2)
        }),
{
}

/// Whether `op` occurs in `ops` at index `i` or later.
pub open spec fn occurs_from(ops: Seq<Op>, op: Op, i: nat) -> bool
    decreases ops.len() - i,
{
    if i >= ops.len() {
        false
    } else {
        ops[i as int] == op || occurs_from(ops, op, i + 1)
    }
}

/// Whether the mirror image of each operation from index `i` on occurs in
/// `ops`.
pub open spec fn mirrored_from(ops: Seq<Op>, i: nat) -> bool
    decreases ops.len() - i,
{
    if i >= ops.len() {
        true
    } else {
        occurs_from(ops, transposed(ops[i as int]), 0) && mirrored_from(ops, i + 1)
    }
}

/// Whether no operation from index `k` on names subpixel `(a, b)`.
pub open spec fn position_free_from(ops: Seq<Op>, a: usize, b: usize, k: nat) -> bool
    decreases ops.len() - k,
{
    if k >= ops.len() {
        true
    } else {
        !(ops[k as int].i == a && ops[k as int].j == b) && position_free_from(ops, a, b, k + 1)
    }
}

/// Whether no operation from index `i` on names the same subpixel as a
/// later one.
pub open spec fn positions_distinct_from(ops: Seq<Op>, i: nat) -> bool
    decreases ops.len() - i,
{
    if i >= ops.len() {
        true
    } else {
        position_free_from(ops, ops[i as int].i, ops[i as int].j, i + 1) && positions_distinct_from(ops, i + 1)
    }
}

proof fn lemma_occurs_from(ops: Seq<Op>, op: Op, i: nat)
    requires
        occurs_from(ops, op, i),
    ensures
        ops.contains(op),
    decreases ops.len() - i,
{
    if ops[i as int] == op {
        assert(ops[i as int] == op);
    } else {
        lemma_occurs_from(ops, op, i + 1);
    }
}

proof fn lemma_mirrored_from(ops: Seq<Op>, i: nat)
    requires
        mirrored_from(ops, i),
    ensures
        forall|k: int| i <= k < ops.len() ==> ops.contains(transposed(#[trigger] ops[k])),
    decreases ops.len() - i,
{
    if i < ops.len() {
        lemma_occurs_from(ops, transposed(ops[i as int]), 0);
        lemma_mirrored_from(ops, i + 1);
    }
}

proof fn lemma_position_free_from(ops: Seq<Op>, a: usize, b: usize, k: nat)
    requires
        position_free_from(ops, a, b, k),
    ensures
        forall|q: int| k <= q < ops.len() ==> !(#[trigger] ops[q].i == a && ops[q].j == b),
    decreases ops.len() - k,
{
    if k < ops.len() {
        lemma_position_free_from(ops, a, b, k + 1);
    }
}

proof fn lemma_positions_distinct_from(ops: Seq<Op>, i: nat)
    requires
        positions_distinct_from(ops, i),
    ensures
        forall|k1: int, k2: int|
            i <= k1 < k2 < ops.len() ==> !(#[trigger] ops[k1].i == #[trigger] ops[k2].i && ops[k1].j == ops[k2].j),
    decreases ops.len() - i,
{
    if i < ops.len() {
        lemma_position_free_from(ops, ops[i as int].i, ops[i as int].j, i + 1);
        lemma_positions_distinct_from(ops, i + 1);
    }
}

/// The two checks on one table.
proof fn lemma_table_checks(scale: int, p: BlendPattern)
    requires
        2 <= scale <= 6,
    ensures
        positions_distinct_from(spec_ops(scale, p), 0),
        !(p is LineShallow) && !(p is LineSteep) ==> mirrored_from(spec_ops(scale, p), 0),
{
    reveal_with_fuel(positions_distinct_from, 17);
    reveal_with_fuel(position_free_from, 17);
    reveal_with_fuel(mirrored_from, 17);
    reveal_with_fuel(occurs_from, 17);
}

/// Law: no weight table writes the same subpixel twice, and the tables of
/// the patterns that do not lean one way (both lines, the diagonal and the
/// rounded corner) are their own mirror image across the corner's
/// diagonal: with each operation on subpixel `(i, j)` the table holds the
/// same operation on `(j, i)`.
pub proof fn law_table_symmetry(scale: int, p: BlendPattern)
    requires
        2 <= scale <= 6,
    ensures
        forall|k1: int, k2: int|
            0 <= k1 < k2 < spec_ops(scale, p).len() ==> !(#[trigger] spec_ops(scale, p)[k1].i
                == #[trigger] spec_ops(scale, p)[k2].i && spec_ops(scale, p)[k1].j == spec_ops(scale, p)[k2].j),
        !(p is LineShallow) && !(p is LineSteep) ==> forall|k: int|
            0 <= k < spec_ops(scale, p).len() ==> spec_ops(scale, p).contains(
                transposed(#[trigger] spec_ops(scale, p)[k]),
            ),
{
    let ops = spec_ops(scale, p);
    lemma_table_checks(scale, p);
    lemma_positions_distinct_from(ops, 0);
    if !(p is LineShallow) && !(p is LineSteep) {
        lemma_mirrored_from(ops, 0);
    }
}

} // verus!
