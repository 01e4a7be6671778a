//! Vector tracing: the boundary of every region of equal colour in a pixel
//! grid is walked along grid edges and emitted as a closed polygon of grid
//! vertices.
//!
//! A boundary is walked with the region's interior on the left, taking at
//! every vertex the sharpest free left turn (left, then straight, then
//! right), and no edge is ever walked twice. Holes of another colour come out
//! as loops of their own, so an even-odd fill renders them.
use vstd::prelude::*;
use crate::optimizer::{
    lemma_select_len, loop_points, region_loops, region_points, stripped, in_first_quadrant, lemma_quadrant_subset, lemma_regions_quadrant_optimizable, lemma_select_contains,
    optimizable, regions_in_first_quadrant, diff, lemma_select_all, next_index, next_of, prev_index, prev_of, redundant, select, spec_cross,
    spec_dedup, spec_flatten, spec_strip, spec_trim,
};
use crate::xbrz_engine::{lemma_index_in_bounds, Argb, ArgbImage};

verus! {

/// A closed loop of grid-vertex coordinates (integer, in pixel units). The
/// closing segment back to the first point is implied.
#[derive(Clone, Debug, PartialEq, Eq)]
pub struct PathLoop {
    pub points: Vec<(i32, i32)>,
}

/// A renderable region: a fill colour plus one or more loops.
#[derive(Clone, Debug, PartialEq, Eq)]
pub struct Region {
    pub color: Argb,
    pub loops: Vec<PathLoop>,
}

// Directions, clockwise: east, south, west, north.
const E: u8 = 0;
const S: u8 = 1;
const W: u8 = 2;
const N: u8 = 3;

// The four sides of a pixel, each walked in the direction that keeps the
// pixel on the left.
const EDGE_TOP: u8 = 0;
const EDGE_RIGHT: u8 = 1;
const EDGE_BOTTOM: u8 = 2;
const EDGE_LEFT: u8 = 3;

/// One step of a boundary walk: the vertex it leaves and its direction.
pub type Step = (i32, i32, u8);

/// A grid edge, named by the pixel on its interior side and which side of
/// that pixel it is.
pub type Edge = (int, int, int);

/// The vertex at which side `side` of pixel `(x, y)` starts when walked with
/// the pixel on the left.
pub open spec fn side_start(x: int, y: int, side: int) -> (int, int) {
    if side == 0 {
        (x + 1, y)
    } else if side == 1 {
        (x + 1, y + 1)
    } else if side == 2 {
        (x, y + 1)
    } else {
        (x, y)
    }
}

/// The direction in which side `side` of a pixel is walked.
pub open spec fn side_direction(side: int) -> int {
    if side == 0 {
        2
    } else if side == 1 {
        3
    } else if side == 2 {
        0
    } else {
        1
    }
}

/// The edge leaving vertex `(vx, vy)` in direction `d`, named by the pixel on
/// its left.
pub open spec fn edge_of(vx: int, vy: int, d: int) -> Edge {
    if d == 0 {
        (vx, vy - 1, 2)
    } else if d == 1 {
        (vx, vy, 3)
    } else if d == 2 {
        (vx - 1, vy, 0)
    } else {
        (vx - 1, vy - 1, 1)
    }
}

/// The pixel on the right of the edge leaving `(vx, vy)` in direction `d`.
pub open spec fn right_of(vx: int, vy: int, d: int) -> (int, int) {
    if d == 0 {
        (vx, vy)
    } else if d == 1 {
        (vx - 1, vy)
    } else if d == 2 {
        (vx - 1, vy - 1)
    } else {
        (vx, vy - 1)
    }
}

/// The vertex reached from `(vx, vy)` by one step in direction `d`.
pub open spec fn advance(vx: int, vy: int, d: int) -> (int, int) {
    if d == 0 {
        (vx + 1, vy)
    } else if d == 1 {
        (vx, vy + 1)
    } else if d == 2 {
        (vx - 1, vy)
    } else {
        (vx, vy - 1)
    }
}

pub open spec fn inside(img: ArgbImage, x: int, y: int) -> bool {
    0 <= x < img.width && 0 <= y < img.height
}

pub open spec fn edge_inside(img: ArgbImage, e: Edge) -> bool {
    inside(img, e.0, e.1) && 0 <= e.2 < 4
}

/// The edge leaving `(vx, vy)` in direction `d` separates a pixel of colour
/// `c` on its left from a pixel of another colour, or the outside, on its
/// right.
pub open spec fn is_boundary(img: ArgbImage, c: Argb, vx: int, vy: int, d: int) -> bool {
    let o = edge_of(vx, vy, d);
    let r = right_of(vx, vy, d);
    &&& inside(img, o.0, o.1)
    &&& img.at(o.0, o.1) == c
    &&& (!inside(img, r.0, r.1) || img.at(r.0, r.1) != c)
}

/// A boundary edge of colour `c` that is not among `used`.
pub open spec fn is_free(img: ArgbImage, c: Argb, used: Set<Edge>, vx: int, vy: int, d: int) -> bool {
    is_boundary(img, c, vx, vy, d) && !used.contains(edge_of(vx, vy, d))
}

/// The direction taken at vertex `(vx, vy)` after arriving in direction `d`:
/// the first free one among a left turn, straight on and a right turn.
pub open spec fn turn(img: ArgbImage, c: Argb, used: Set<Edge>, vx: int, vy: int, d: int) -> Option<int> {
    let left = (d + 3) % 4;
    let right = (d + 1) % 4;
    if is_free(img, c, used, vx, vy, left) {
        Some(left)
    } else if is_free(img, c, used, vx, vy, d) {
        Some(d)
    } else if is_free(img, c, used, vx, vy, right) {
        Some(right)
    } else {
        None
    }
}

pub open spec fn step_edge(s: Step) -> Edge {
    edge_of(s.0 as int, s.1 as int, s.2 as int)
}

pub open spec fn step_end(s: Step) -> (int, int) {
    advance(s.0 as int, s.1 as int, s.2 as int)
}

/// The edges walked by `steps`.
pub open spec fn walked(steps: Seq<Step>) -> Set<Edge>
    decreases steps.len(),
{
    if steps.len() == 0 {
        Set::empty()
    } else {
        walked(steps.drop_last()).insert(step_edge(steps.last()))
    }
}

/// Step `j + 1` is the turn taken at the end of step `j`.
pub open spec fn continues(img: ArgbImage, c: Argb, used: Set<Edge>, steps: Seq<Step>, j: int) -> bool {
    let v = step_end(steps[j]);
    &&& steps[j + 1].0 == v.0
    &&& steps[j + 1].1 == v.1
    &&& turn(img, c, used.union(walked(steps.take(j + 1))), v.0, v.1, steps[j].2 as int)
        == Some(steps[j + 1].2 as int)
}

/// No turn is left at the end of the last step.
pub open spec fn stuck(img: ArgbImage, c: Argb, used: Set<Edge>, steps: Seq<Step>) -> bool {
    let v = step_end(steps.last());
    turn(img, c, used.union(walked(steps)), v.0, v.1, steps.last().2 as int) is None
}

/// `steps` is the boundary walk of colour `c` that starts with its first
/// step when the edges `used` are already taken: it starts on a free
/// boundary edge, turns by [`turn`] at every vertex and ends where no turn
/// is left.
pub open spec fn walk_from(img: ArgbImage, c: Argb, used: Set<Edge>, steps: Seq<Step>) -> bool {
    &&& steps.len() >= 1
    &&& steps[0].2 < 4
    &&& is_free(img, c, used, steps[0].0 as int, steps[0].1 as int, steps[0].2 as int)
    &&& forall|j: int| 0 <= j < steps.len() - 1 ==> #[trigger] continues(img, c, used, steps, j)
    &&& stuck(img, c, used, steps)
}

/// The vertices of a walk.
pub open spec fn walk_points(steps: Seq<Step>) -> Seq<(i32, i32)> {
    steps.map_values(|s: Step| (s.0, s.1))
}

/// The bit of `vis` that marks edge `e`.
spec fn marked(vis: Seq<u8>, w: int, e: Edge) -> bool {
    vis[e.1 * w + e.0] & (1u8 << (e.2 as u8)) != 0
}

/// The bitmap `vis` marks exactly the edges of `used`.
spec fn tracks(vis: Seq<u8>, img: ArgbImage, used: Set<Edge>) -> bool {
    &&& vis.len() == img.width * img.height
    &&& forall|e: Edge| #[trigger] used.contains(e) ==> edge_inside(img, e)
    &&& forall|e: Edge|
        #![trigger marked(vis, img.width as int, e)]
        #![trigger used.contains(e)]
        edge_inside(img, e) ==> (marked(vis, img.width as int, e) <==> used.contains(e))
}

/// The image is small enough for vertex coordinates, pixel indices and the
/// walk bound to be machine integers.
pub open spec fn traceable(img: ArgbImage) -> bool {
    &&& img.wf()
    &&& img.width * img.height <= i32::MAX
    &&& img.width <= i32::MAX - 1
    &&& img.height <= i32::MAX - 1
    &&& 4 * (img.width * img.height) + 16 <= usize::MAX
}

/// Is `img` small enough to trace?
pub fn is_traceable(img: &ArgbImage) -> (b: bool)
    ensures
        b == traceable(*img),
{
    let (w, h) = (img.width, img.height);
    if h != 0 && w > usize::MAX / h {
        proof {
            assert(w * h > usize::MAX) by (nonlinear_arith)
                requires
                    h != 0,
                    w > usize::MAX / h,
            ;
        }
        return false;
    }
    proof {
        if h != 0 {
            assert(w * h <= usize::MAX) by (nonlinear_arith)
                requires
                    h != 0,
                    w <= usize::MAX / h,
            ;
        }
    }
    let n = w * h;
    let limit = i32::MAX as usize;
    if w > limit - 1 || h > limit - 1 || n > limit || n > (usize::MAX - 16) / 4 {
        return false;
    }
    img.pixels.len() == n
}

proof fn lemma_set_bit(v: u8, s: u8, t: u8)
    requires
        s < 4,
        t < 4,
    ensures
        ((v | (1u8 << s)) & (1u8 << t) != 0) == ((v & (1u8 << t) != 0) || s == t),
{
    assert(((v | (1u8 << s)) & (1u8 << t) != 0) == ((v & (1u8 << t) != 0) || s == t))
        by (bit_vector)
        requires
            s < 4,
            t < 4,
    ;
}

proof fn lemma_clear_bit(t: u8)
    requires
        t < 4,
    ensures
        (0u8 & (1u8 << t)) == 0,
{
    assert((0u8 & (1u8 << t)) == 0) by (bit_vector);
}

fn start_vertex(x: i32, y: i32, edge: u8) -> (v: (i32, i32))
    requires
        0 <= x < i32::MAX,
        0 <= y < i32::MAX,
    ensures
        v.0 == side_start(x as int, y as int, edge as int).0,
        v.1 == side_start(x as int, y as int, edge as int).1,
{
    match edge {
        EDGE_TOP => (x + 1, y),
        EDGE_RIGHT => (x + 1, y + 1),
        EDGE_BOTTOM => (x, y + 1),
        _ => (x, y),
    }
}

fn edge_direction(edge: u8) -> (d: u8)
    requires
        edge < 4,
    ensures
        d == side_direction(edge as int),
        d < 4,
{
    match edge {
        EDGE_TOP => W,
        EDGE_RIGHT => N,
        EDGE_BOTTOM => E,
        _ => S,
    }
}

/// The pixel that owns the edge leaving `(vx, vy)` in direction `d` (the
/// pixel on its left), and which of its sides the edge is.
fn owner(vx: i32, vy: i32, d: u8) -> (o: (i32, i32, u8))
    requires
        0 <= vx,
        0 <= vy,
    ensures
        o.0 == edge_of(vx as int, vy as int, d as int).0,
        o.1 == edge_of(vx as int, vy as int, d as int).1,
        o.2 == edge_of(vx as int, vy as int, d as int).2,
{
    match d {
        E => (vx, vy - 1, EDGE_BOTTOM),
        S => (vx, vy, EDGE_LEFT),
        W => (vx - 1, vy, EDGE_TOP),
        _ => (vx - 1, vy - 1, EDGE_RIGHT),
    }
}

/// The pixel on the right of the edge leaving `(vx, vy)` in direction `d`.
fn right_neighbor(vx: i32, vy: i32, d: u8) -> (r: (i32, i32))
    requires
        0 <= vx,
        0 <= vy,
    ensures
        r.0 == right_of(vx as int, vy as int, d as int).0,
        r.1 == right_of(vx as int, vy as int, d as int).1,
{
    match d {
        E => (vx, vy),
        S => (vx - 1, vy),
        W => (vx - 1, vy - 1),
        _ => (vx, vy - 1),
    }
}

/// Is the edge leaving `(vx, vy)` in direction `d` a boundary edge of the
/// region of `color`?
fn edge_is_boundary(img: &ArgbImage, color: Argb, vx: i32, vy: i32, d: u8) -> (b: bool)
    requires
        traceable(*img),
        0 <= vx,
        0 <= vy,
    ensures
        b == is_boundary(*img, color, vx as int, vy as int, d as int),
{
    let (ox, oy, _) = owner(vx, vy, d);
    let (rw, rh) = (img.width as i32, img.height as i32);
    if ox < 0 || oy < 0 || ox >= rw || oy >= rh {
        return false;
    }
    proof {
        lemma_index_in_bounds(ox as int, oy as int, img.width as int, img.height as int);
    }
    if img.get(ox as usize, oy as usize) != color {
        return false;
    }
    let (rx, ry) = right_neighbor(vx, vy, d);
    if rx < 0 || ry < 0 || rx >= rw || ry >= rh {
        return true;
    }
    proof {
        lemma_index_in_bounds(rx as int, ry as int, img.width as int, img.height as int);
    }
    img.get(rx as usize, ry as usize) != color
}

/// The index of an edge inside the grid, four per pixel.
spec fn edge_index(w: int, e: Edge) -> int {
    4 * (e.1 * w + e.0) + e.2
}

proof fn lemma_edge_index_injective(img: ArgbImage, a: Edge, b: Edge)
    requires
        edge_inside(img, a),
        edge_inside(img, b),
        edge_index(img.width as int, a) == edge_index(img.width as int, b),
    ensures
        a == b,
{
    let w = img.width as int;
    let pa = a.1 * w + a.0;
    let pb = b.1 * w + b.0;
    vstd::arithmetic::div_mod::lemma_fundamental_div_mod_converse(4 * pa + a.2, 4, pa, a.2);
    vstd::arithmetic::div_mod::lemma_fundamental_div_mod_converse(4 * pb + b.2, 4, pb, b.2);
    assert(pa * 4 == 4 * pa && pb * 4 == 4 * pb) by (nonlinear_arith);
    vstd::arithmetic::div_mod::lemma_fundamental_div_mod_converse(pa, w, a.1, a.0);
    vstd::arithmetic::div_mod::lemma_fundamental_div_mod_converse(pb, w, b.1, b.0);
    assert(a.1 * w == w * a.1 && b.1 * w == w * b.1) by (nonlinear_arith);
}

/// A set of edges inside the grid has at most four per pixel.
proof fn lemma_edges_bound(img: ArgbImage, es: Set<Edge>)
    requires
        es.finite(),
        forall|e: Edge| #[trigger] es.contains(e) ==> edge_inside(img, e),
    ensures
        es.len() <= 4 * img.width * img.height,
{
    let w = img.width as int;
    let h = img.height as int;
    let f = |e: Edge| edge_index(w, e);
    assert(vstd::relations::injective_on(f, es)) by {
        assert forall|a: Edge, b: Edge| es.contains(a) && es.contains(b) && #[trigger] f(a) == #[trigger] f(b)
            implies a == b by {
            lemma_edge_index_injective(img, a, b);
        }
    }
    let idx = es.map(f);
    vstd::set_lib::lemma_map_size(es, idx, f);
    assert(0 <= w * h) by (nonlinear_arith)
        requires
            0 <= w,
            0 <= h,
    ;
    vstd::set_lib::lemma_int_range(0, 4 * (w * h));
    assert(idx.subset_of(vstd::set_lib::set_int_range(0, 4 * (w * h)))) by {
        assert forall|i: int| idx.contains(i) implies 0 <= i < 4 * (w * h) by {
            let e = choose|e: Edge| es.contains(e) && f(e) == i;
            lemma_index_in_bounds(e.0, e.1, w, h);
        }
    }
    vstd::set_lib::lemma_len_subset(idx, vstd::set_lib::set_int_range(0, 4 * (w * h)));
    assert(4 * (w * h) == 4 * w * h) by (nonlinear_arith);
}

proof fn lemma_walked_contains(steps: Seq<Step>, j: int)
    requires
        0 <= j < steps.len(),
    ensures
        walked(steps).contains(step_edge(steps[j])),
    decreases steps.len(),
{
    if j < steps.len() - 1 {
        lemma_walked_contains(steps.drop_last(), j);
    }
}

fn is_visited(visited: &Vec<u8>, vx: i32, vy: i32, d: u8, w: i32, h: i32) -> (b: bool)
    requires
        0 <= vx,
        0 <= vy,
        0 <= w,
        0 <= h,
        visited@.len() == w * h,
    ensures
        ({
            let o = edge_of(vx as int, vy as int, d as int);
            b == (!(0 <= o.0 < w && 0 <= o.1 < h) || marked(visited@, w as int, o))
        }),
{
    let (ox, oy, oedge) = owner(vx, vy, d);
    if ox < 0 || oy < 0 || ox >= w || oy >= h {
        return true;
    }
    proof {
        lemma_index_in_bounds(ox as int, oy as int, w as int, h as int);
    }
    let n = visited.len();
    assert(oy * w + ox < n);
    visited[oy as usize * w as usize + ox as usize] & (1 << oedge) != 0
}

fn mark_visited(visited: &mut Vec<u8>, vx: i32, vy: i32, d: u8, w: i32)
    requires
        0 <= vx,
        0 <= vy,
        0 <= w,
        ({
            let o = edge_of(vx as int, vy as int, d as int);
            0 <= o.0 < w && 0 <= o.1 && o.1 * w + o.0 < old(visited)@.len()
        }),
    ensures
        ({
            let o = edge_of(vx as int, vy as int, d as int);
            let i = o.1 * w + o.0;
            final(visited)@ == old(visited)@.update(i, old(visited)@[i] | (1u8 << (o.2 as u8)))
        }),
{
    let (ox, oy, oedge) = owner(vx, vy, d);
    assert(0 <= oy * w) by (nonlinear_arith)
        requires
            0 <= oy,
            0 <= w,
    ;
    let n = visited.len();
    assert(oy * w + ox < n);
    let i = oy as usize * w as usize + ox as usize;
    let cur = visited[i];
    visited[i] = cur | (1 << oedge);
}

/// Marking an edge adds it to the tracked set.
proof fn lemma_mark(vis: Seq<u8>, img: ArgbImage, used: Set<Edge>, e: Edge)
    requires
        tracks(vis, img, used),
        edge_inside(img, e),
    ensures
        ({
            let i = e.1 * img.width + e.0;
            tracks(vis.update(i, vis[i] | (1u8 << (e.2 as u8))), img, used.insert(e))
        }),
{
    let w = img.width as int;
    let i = e.1 * w + e.0;
    let vis2 = vis.update(i, vis[i] | (1u8 << (e.2 as u8)));
    let used2 = used.insert(e);
    lemma_index_in_bounds(e.0, e.1, w, img.height as int);
    assert forall|f: Edge| edge_inside(img, f) implies (marked(vis2, w, f) <==> used2.contains(f)) by {
        let j = f.1 * w + f.0;
        lemma_index_in_bounds(f.0, f.1, w, img.height as int);
        lemma_set_bit(vis[i], e.2 as u8, f.2 as u8);
        if j == i {
            vstd::arithmetic::div_mod::lemma_fundamental_div_mod_converse(i, w, e.1, e.0);
            vstd::arithmetic::div_mod::lemma_fundamental_div_mod_converse(j, w, f.1, f.0);
            assert(e.1 * w == w * e.1 && f.1 * w == w * f.1) by (nonlinear_arith);
            assert(marked(vis2, w, f) == (marked(vis, w, f) || e.2 == f.2));
        } else {
            assert(marked(vis2, w, f) == marked(vis, w, f));
            if f.0 == e.0 && f.1 == e.1 {
                assert(false);
            }
        }
    }
}

/// Is the edge leaving `(vx, vy)` in direction `d` a boundary edge of
/// `color` that has not been walked yet?
fn free_edge(img: &ArgbImage, visited: &Vec<u8>, color: Argb, vx: i32, vy: i32, d: u8, Ghost(used): Ghost<Set<Edge>>) -> (b: bool)
    requires
        traceable(*img),
        tracks(visited@, *img, used),
        0 <= vx,
        0 <= vy,
        d < 4,
    ensures
        b == is_free(*img, color, used, vx as int, vy as int, d as int),
{
    let w = img.width as i32;
    let h = img.height as i32;
    let boundary = edge_is_boundary(img, color, vx, vy, d);
    boundary && !is_visited(visited, vx, vy, d, w, h)
}

/// The first free turn at `(vx, vy)` after arriving in direction `d`:
/// left, then straight on, then right.
fn next_direction(img: &ArgbImage, visited: &Vec<u8>, color: Argb, vx: i32, vy: i32, d: u8, Ghost(used): Ghost<Set<Edge>>) -> (r: Option<u8>)
    requires
        traceable(*img),
        tracks(visited@, *img, used),
        0 <= vx,
        0 <= vy,
        d < 4,
    ensures
        match r {
            Some(nd) => nd < 4 && turn(*img, color, used, vx as int, vy as int, d as int) == Some(nd as int),
            None => turn(*img, color, used, vx as int, vy as int, d as int) is None,
        },
{
    let left = (d + 3) % 4;
    let right = (d + 1) % 4;
    if free_edge(img, visited, color, vx, vy, left, Ghost(used)) {
        Some(left)
    } else if free_edge(img, visited, color, vx, vy, d, Ghost(used)) {
        Some(d)
    } else if free_edge(img, visited, color, vx, vy, right, Ghost(used)) {
        Some(right)
    } else {
        None
    }
}

/// Walk one closed boundary of the colour of pixel `(px, py)`, starting
/// with that pixel's side `start_edge`, marking every edge it walks. The
/// walk keeps the region on its left and takes the sharpest free turn at
/// every vertex. Returns the vertices of the walk and, as a ghost, its steps.
fn trace_loop(
    img: &ArgbImage,
    visited: &mut Vec<u8>,
    px: i32,
    py: i32,
    start_edge: u8,
    Ghost(used): Ghost<Set<Edge>>,
) -> (res: (Vec<(i32, i32)>, Ghost<Seq<Step>>))
    requires
        traceable(*img),
        0 <= px < img.width,
        0 <= py < img.height,
        start_edge < 4,
        tracks(old(visited)@, *img, used),
        is_free(
            *img,
            img.at(px as int, py as int),
            used,
            side_start(px as int, py as int, start_edge as int).0,
            side_start(px as int, py as int, start_edge as int).1,
            side_direction(start_edge as int),
        ),
    ensures
        walk_from(*img, img.at(px as int, py as int), used, res.1@),
        res.1@[0].0 == side_start(px as int, py as int, start_edge as int).0,
        res.1@[0].1 == side_start(px as int, py as int, start_edge as int).1,
        res.1@[0].2 == side_direction(start_edge as int),
        res.0@ == walk_points(res.1@),
        tracks(final(visited)@, *img, used.union(walked(res.1@))),
{
    let w = img.width as i32;
    let h = img.height as i32;
    proof {
        lemma_index_in_bounds(px as int, py as int, w as int, h as int);
    }
    let color = img.get(px as usize, py as usize);

    let (sx, sy) = start_vertex(px, py, start_edge);
    let start_dir = edge_direction(start_edge);
    let mut points = vec![(sx, sy)];
    let (mut x, mut y) = (sx, sy);
    let mut d = start_dir;
    let ghost mut steps: Seq<Step> = seq![(sx, sy, start_dir)];
    proof {
        assert(walked(steps.drop_last()) =~= Set::<Edge>::empty());
        assert(used.union(Set::<Edge>::empty()) =~= used);
        assert(points@ =~= walk_points(steps));
    }

    // A walk cannot take more steps than there are edges.
    let max_edges = 4 * (img.width * img.height) + 16;
    let mut count: usize = 0;
    while count < max_edges
        invariant_except_break
            tracks(visited@, *img, used.union(walked(steps.drop_last()))),
        invariant
            traceable(*img),
            w == img.width,
            h == img.height,
            color == img.at(px as int, py as int),
            max_edges == 4 * (img.width * img.height) + 16,
            count <= 4 * (img.width * img.height),
            steps.len() == count + 1,
            steps[0] == (sx, sy, start_dir),
            start_dir < 4,
            steps.last() == (x, y, d),
            d < 4,
            points@ == walk_points(steps),
            is_free(*img, color, used, sx as int, sy as int, start_dir as int),
            forall|j: int| 0 <= j < steps.len() - 1 ==> #[trigger] continues(*img, color, used, steps, j),
            is_free(*img, color, used.union(walked(steps.drop_last())), x as int, y as int, d as int),
            walked(steps.drop_last()).finite(),
            walked(steps.drop_last()).len() == count,
            forall|e: Edge| #[trigger] walked(steps.drop_last()).contains(e) ==> edge_inside(*img, e) && !used.contains(e),
        ensures
            walk_from(*img, color, used, steps),
            points@ == walk_points(steps),
            steps[0] == (sx, sy, start_dir),
            tracks(visited@, *img, used.union(walked(steps))),
        decreases max_edges - count,
    {
        let ghost before = used.union(walked(steps.drop_last()));
        let ghost e = edge_of(x as int, y as int, d as int);
        proof {
            lemma_mark(visited@, *img, before, e);
            lemma_index_in_bounds(e.0, e.1, w as int, h as int);
            assert(4 * (img.width * img.height) == 4 * img.width * img.height) by (nonlinear_arith);
            assert(steps.drop_last().push(steps.last()) =~= steps);
            assert(walked(steps) == walked(steps.drop_last()).insert(e));
            assert(before.insert(e) =~= used.union(walked(steps)));
        }
        mark_visited(visited, x, y, d, w);
        let (nx, ny) = match d {
            E => (x + 1, y),
            S => (x, y + 1),
            W => (x - 1, y),
            _ => (x, y - 1),
        };
        let ghost now = used.union(walked(steps));
        let next = next_direction(img, visited, color, nx, ny, d, Ghost(now));
        match next {
            None => {
                break;
            },
            Some(nd) => {
                if nx == sx && ny == sy && nd == start_dir {
                    // The start edge was walked first, so it is never free.
                    proof {
                        lemma_walked_contains(steps, 0);
                    }
                    points.push((nx, ny));
                    break;
                }
                let ghost old_steps = steps;
                points.push((nx, ny));
                proof {
                    steps = steps.push((nx, ny, nd));
                    assert(steps.drop_last() =~= old_steps);
                    assert(points@ =~= walk_points(steps));
                    assert forall|j: int| 0 <= j < steps.len() - 1 implies #[trigger] continues(*img, color, used, steps, j) by {
                        if j < old_steps.len() - 1 {
                            assert(steps.take(j + 1) =~= old_steps.take(j + 1));
                            assert(continues(*img, color, used, old_steps, j));
                        } else {
                            assert(steps.take(j + 1) =~= old_steps);
                        }
                    }
                    assert forall|f: Edge| #[trigger] walked(steps.drop_last()).contains(f) implies edge_inside(*img, f) && !used.contains(f) by {
                        if f != e {
                            assert(walked(old_steps.drop_last()).contains(f));
                        }
                    }
                    lemma_edges_bound(*img, walked(steps.drop_last()));
                }
                x = nx;
                y = ny;
                d = nd;
            },
        }
        count += 1;
    }
    (points, Ghost(steps))
}

/// Point `i` of a closed loop continues the segment that ends at it in the
/// same direction and by the same step, a step that is not zero.
pub open spec fn collinear_at(pts: Seq<(i32, i32)>, i: int) -> bool {
    let d1 = diff(prev_of(pts, i), pts[i]);
    let d2 = diff(pts[i], next_of(pts, i));
    (d1.0 != 0 || d1.1 != 0) && d1 == d2
}

/// The corners of a closed loop: every point that is not [`collinear_at`]
/// its neighbours, in order. Loops of three points or fewer are kept whole.
pub open spec fn spec_simplify(pts: Seq<(i32, i32)>) -> Seq<(i32, i32)> {
    if pts.len() <= 3 {
        pts
    } else {
        select(pts, |i: int| !collinear_at(pts, i), pts.len() as int)
    }
}

/// Drop points that lie on a straight line between their neighbours,
/// keeping only the corners of the loop.
fn simplify(points: &Vec<(i32, i32)>) -> (out: Vec<(i32, i32)>)
    ensures
        out@ == spec_simplify(points@),
{
    let n = points.len();
    let mut out: Vec<(i32, i32)> = Vec::new();
    if n <= 3 {
        let mut k: usize = 0;
        while k < n
            invariant
                k <= n,
                n == points@.len(),
                out@ == points@.take(k as int),
            decreases n - k,
        {
            out.push(points[k]);
            proof {
                assert(points@.take(k as int).push(points@[k as int]) =~= points@.take(k + 1));
            }
            k += 1;
        }
        proof {
            assert(points@.take(n as int) =~= points@);
        }
        return out;
    }
    let ghost pts = points@;
    let ghost keep = |i: int| !collinear_at(pts, i);
    let mut i: usize = 0;
    while i < n
        invariant
            i <= n,
            n == pts.len(),
            pts == points@,
            keep == (|i: int| !collinear_at(pts, i)),
            out@ == select(pts, keep, i as int),
        decreases n - i,
    {
        let prev = points[prev_index(i, n)];
        let cur = points[i];
        let next = points[next_index(i, n)];
        let d1 = (cur.0 as i64 - prev.0 as i64, cur.1 as i64 - prev.1 as i64);
        let d2 = (next.0 as i64 - cur.0 as i64, next.1 as i64 - cur.1 as i64);
        let collinear = (d1.0 != 0 || d1.1 != 0) && d1.0 == d2.0 && d1.1 == d2.1;
        if !collinear {
            out.push(cur);
        }
        i += 1;
    }
    out
}

/// Side `e.2` of a visible pixel `(e.0, e.1)` is a boundary edge of that
/// pixel's colour: an edge that some walk has to take.
pub open spec fn opens(img: ArgbImage, e: Edge) -> bool {
    let v = side_start(e.0, e.1, e.2);
    &&& edge_inside(img, e)
    &&& img.at(e.0, e.1).alpha() != 0
    &&& is_boundary(img, img.at(e.0, e.1), v.0, v.1, side_direction(e.2))
}

/// Scan order of edges: rows top to bottom, pixels left to right, then the
/// top, right, bottom and left side.
pub open spec fn scan_key(img: ArgbImage, e: Edge) -> int {
    4 * (e.1 * img.width + e.0) + e.2
}

/// The edges taken by the first `k` walks.
pub open spec fn taken(walks: Seq<(Argb, Seq<Step>)>, k: int) -> Set<Edge>
    decreases k,
{
    if k <= 0 {
        Set::empty()
    } else {
        taken(walks, k - 1).union(walked(walks[k - 1].1))
    }
}

/// Walk `k` of colour `walks[k].0` starts on the first edge, in scan order,
/// that the earlier walks left open, and follows the turn rule from there.
pub open spec fn starts_walk(img: ArgbImage, walks: Seq<(Argb, Seq<Step>)>, k: int) -> bool {
    let c = walks[k].0;
    let steps = walks[k].1;
    let first = step_edge(steps[0]);
    &&& walk_from(img, c, taken(walks, k), steps)
    &&& opens(img, first)
    &&& c == img.at(first.0, first.1)
    &&& forall|e: Edge|
        #[trigger] opens(img, e) && scan_key(img, e) < scan_key(img, first) ==> taken(walks, k).contains(e)
}

/// `walks` are the boundary walks of `img` in the order of the scan, and
/// together they take every boundary edge of every visible pixel.
pub open spec fn traced(img: ArgbImage, walks: Seq<(Argb, Seq<Step>)>) -> bool {
    &&& forall|k: int| 0 <= k < walks.len() ==> #[trigger] starts_walk(img, walks, k)
    &&& forall|e: Edge| #[trigger] opens(img, e) ==> taken(walks, walks.len() as int).contains(e)
}

/// The loops that survive simplification, with their colours, in walk order.
pub open spec fn kept(walks: Seq<(Argb, Seq<Step>)>) -> Seq<(Argb, Seq<(i32, i32)>)>
    decreases walks.len(),
{
    if walks.len() == 0 {
        Seq::empty()
    } else {
        let rest = kept(walks.drop_last());
        let pts = spec_simplify(walk_points(walks.last().1));
        if pts.len() >= 3 {
            rest.push((walks.last().0, pts))
        } else {
            rest
        }
    }
}

/// The number of entries whose colour value is at most that of `c`: where
/// a new entry of colour `c` goes in a list sorted by colour value, after
/// its equals.
pub open spec fn rank(rs: Seq<(Argb, Seq<Seq<(i32, i32)>>)>, c: Argb) -> int
    decreases rs.len(),
{
    if rs.len() == 0 {
        0
    } else {
        rank(rs.drop_last(), c) + if rs.last().0.0 <= c.0 {
            1int
        } else {
            0int
        }
    }
}

/// Add loop `l` of colour `c`: to the entry of that colour if there is
/// one, otherwise as a new entry after all entries of lower colour value.
pub open spec fn add_loop(
    rs: Seq<(Argb, Seq<Seq<(i32, i32)>>)>,
    c: Argb,
    l: Seq<(i32, i32)>,
) -> Seq<(Argb, Seq<Seq<(i32, i32)>>)> {
    let p = rank(rs, c);
    if p > 0 && rs[p - 1].0 == c {
        rs.update(p - 1, (c, rs[p - 1].1.push(l)))
    } else {
        rs.insert(p, (c, seq![l]))
    }
}

/// The loops `ks` grouped by colour, one entry per colour in order of
/// colour value, each with its loops in the order of `ks`.
pub open spec fn grouped(ks: Seq<(Argb, Seq<(i32, i32)>)>) -> Seq<(Argb, Seq<Seq<(i32, i32)>>)>
    decreases ks.len(),
{
    if ks.len() == 0 {
        Seq::empty()
    } else {
        add_loop(grouped(ks.drop_last()), ks.last().0, ks.last().1)
    }
}

/// One entry per loop: the loops of each entry of `gs` in turn, each on its
/// own with the entry's colour.
pub open spec fn singles(gs: Seq<(Argb, Seq<Seq<(i32, i32)>>)>) -> Seq<(Argb, Seq<Seq<(i32, i32)>>)>
    decreases gs.len(),
{
    if gs.len() == 0 {
        Seq::empty()
    } else {
        singles(gs.drop_last()) + gs.last().1.map_values(|l: Seq<(i32, i32)>| (gs.last().0, seq![l]))
    }
}

/// The regions made of the loops `ks`, in order of colour value: one region
/// per colour with `merge`, one per loop without.
pub open spec fn arrange(ks: Seq<(Argb, Seq<(i32, i32)>)>, merge: bool) -> Seq<(Argb, Seq<Seq<(i32, i32)>>)> {
    if merge {
        grouped(ks)
    } else {
        singles(grouped(ks))
    }
}

pub open spec fn region_view(r: Region) -> (Argb, Seq<Seq<(i32, i32)>>) {
    (r.color, r.loops@.map_values(|l: PathLoop| l.points@))
}

pub open spec fn regions_view(rs: Seq<Region>) -> Seq<(Argb, Seq<Seq<(i32, i32)>>)> {
    rs.map_values(|r: Region| region_view(r))
}

fn add_region_loop(regions: &mut Vec<Region>, color: Argb, l: PathLoop)
    ensures
        regions_view(final(regions)@) == add_loop(regions_view(old(regions)@), color, l.points@),
{
    let ghost rs = regions_view(regions@);
    let n = regions.len();
    let mut p: usize = 0;
    let mut i: usize = 0;
    while i < n
        invariant
            i <= n,
            n == regions@.len(),
            rs == regions_view(regions@),
            p <= i,
            p == rank(rs.take(i as int), color),
        decreases n - i,
    {
        proof {
            assert(rs.take(i + 1).drop_last() =~= rs.take(i as int));
        }
        if regions[i].color.0 <= color.0 {
            p += 1;
        }
        i += 1;
    }
    proof {
        assert(rs.take(n as int) =~= rs);
    }
    let ghost old_regions = regions@;
    if p > 0 && regions[p - 1].color == color {
        let mut r = regions.remove(p - 1);
        let ghost old_r = r;
        r.loops.push(l);
        proof {
            assert(r.loops@.map_values(|l: PathLoop| l.points@) =~= old_r.loops@.map_values(
                |l: PathLoop| l.points@,
            ).push(l.points@));
            assert(region_view(r) == (color, rs[p - 1].1.push(l.points@)));
        }
        regions.insert(p - 1, r);
        proof {
            assert(regions@ =~= old_regions.update(p - 1, r));
            assert(regions_view(regions@) =~= rs.update(p - 1, (color, rs[p - 1].1.push(l.points@))));
        }
    } else {
        let r = Region { color, loops: vec![l] };
        proof {
            assert(r.loops@.map_values(|l: PathLoop| l.points@) =~= seq![l.points@]);
        }
        regions.insert(p, r);
        proof {
            assert(regions_view(regions@) =~= rs.insert(p as int, (color, seq![l.points@])));
        }
    }
}

/// One region per loop: the loops of each region in turn, each on its own
/// with the region's colour.
fn split_regions(groups: Vec<Region>) -> (out: Vec<Region>)
    ensures
        regions_view(out@) == singles(regions_view(groups@)),
{
    let ghost gv = regions_view(groups@);
    let ghost orig = groups@;
    let mut groups = groups;
    let n = groups.len();
    let mut out: Vec<Region> = Vec::new();
    let mut i: usize = 0;
    proof {
        assert(gv.take(0).len() == 0);
        assert(regions_view(out@) =~= singles(gv.take(0)));
    }
    while i < n
        invariant
            i <= n,
            n == orig.len(),
            gv == regions_view(orig),
            groups@.len() == n,
            forall|j: int| i <= j < n ==> #[trigger] groups@[j] == orig[j],
            regions_view(out@) == singles(gv.take(i as int)),
        decreases n - i,
    {
        let color = groups[i].color;
        let mut loops: Vec<PathLoop> = Vec::new();
        std::mem::swap(&mut loops, &mut groups[i].loops);
        let ghost ls = loops@;
        let ghost g = gv[i as int];
        let ghost start = regions_view(out@);
        proof {
            assert(g.1 == ls.map_values(|l: PathLoop| l.points@));
            assert(g.0 == color);
        }
        let m = loops.len();
        let mut j: usize = 0;
        while j < m
            invariant
                j <= m,
                m == ls.len(),
                loops@.len() == m,
                forall|q: int| j <= q < m ==> #[trigger] loops@[q] == ls[q],
                g.1 == ls.map_values(|l: PathLoop| l.points@),
                g.0 == color,
                regions_view(out@) == start + g.1.take(j as int).map_values(|l: Seq<(i32, i32)>| (g.0, seq![l])),
            decreases m - j,
        {
            let mut pl = PathLoop { points: Vec::new() };
            std::mem::swap(&mut pl, &mut loops[j]);
            let ghost before = regions_view(out@);
            let r = Region { color, loops: vec![pl] };
            proof {
                assert(r.loops@.map_values(|l: PathLoop| l.points@) =~= seq![ls[j as int].points@]);
                assert(region_view(r) == (g.0, seq![g.1[j as int]]));
            }
            out.push(r);
            proof {
                assert(regions_view(out@) =~= before.push(region_view(r)));
                assert(g.1.take(j + 1) =~= g.1.take(j as int).push(g.1[j as int]));
                assert(g.1.take(j + 1).map_values(|l: Seq<(i32, i32)>| (g.0, seq![l])) =~= g.1.take(
                    j as int,
                ).map_values(|l: Seq<(i32, i32)>| (g.0, seq![l])).push((g.0, seq![g.1[j as int]])));
            }
            j += 1;
        }
        proof {
            assert(g.1.take(m as int) =~= g.1);
            assert(gv.take(i + 1).drop_last() =~= gv.take(i as int));
            assert(gv.take(i + 1).last() == g);
        }
        i += 1;
    }
    proof {
        assert(gv.take(n as int) =~= gv);
    }
    out
}

proof fn lemma_taken_prefix(walks: Seq<(Argb, Seq<Step>)>, x: (Argb, Seq<Step>), k: int)
    requires
        0 <= k <= walks.len(),
    ensures
        taken(walks.push(x), k) == taken(walks, k),
    decreases k,
{
    if k > 0 {
        lemma_taken_prefix(walks, x, k - 1);
    }
}

/// What the scan has built after the walks `walks`.
spec fn scan_state(img: ArgbImage, walks: Seq<(Argb, Seq<Step>)>, vis: Seq<u8>, rs: Seq<Region>) -> bool {
    &&& forall|k: int| 0 <= k < walks.len() ==> #[trigger] starts_walk(img, walks, k)
    &&& tracks(vis, img, taken(walks, walks.len() as int))
    &&& regions_view(rs) == grouped(kept(walks))
}

/// Every open edge before `bound` in scan order has been taken.
spec fn scanned(img: ArgbImage, walks: Seq<(Argb, Seq<Step>)>, bound: int) -> bool {
    forall|e: Edge|
        #[trigger] opens(img, e) && scan_key(img, e) < bound ==> taken(walks, walks.len() as int).contains(e)
}

/// Add the walk `steps` of colour `c`, starting on side `side` of pixel
/// `(x, y)`, to the scan.
proof fn lemma_scan_step(
    img: ArgbImage,
    walks: Seq<(Argb, Seq<Step>)>,
    steps: Seq<Step>,
    x: int,
    y: int,
    side: int,
)
    requires
        traceable(img),
        0 <= x < img.width,
        0 <= y < img.height,
        0 <= side < 4,
        img.at(x, y).alpha() != 0,
        forall|k: int| 0 <= k < walks.len() ==> #[trigger] starts_walk(img, walks, k),
        scanned(img, walks, 4 * (y * img.width + x) + side),
        walk_from(img, img.at(x, y), taken(walks, walks.len() as int), steps),
        steps[0].0 == side_start(x, y, side).0,
        steps[0].1 == side_start(x, y, side).1,
        steps[0].2 == side_direction(side),
    ensures
        ({
            let walks2 = walks.push((img.at(x, y), steps));
            &&& forall|k: int| 0 <= k < walks2.len() ==> #[trigger] starts_walk(img, walks2, k)
            &&& taken(walks2, walks2.len() as int) == taken(walks, walks.len() as int).union(walked(steps))
            &&& scanned(img, walks2, 4 * (y * img.width + x) + side + 1)
        }),
{
    let c = img.at(x, y);
    let walks2 = walks.push((c, steps));
    let n = walks.len() as int;
    lemma_taken_prefix(walks, (c, steps), n);
    assert(step_edge(steps[0]) == (x, y, side));
    assert forall|k: int| 0 <= k < walks2.len() implies #[trigger] starts_walk(img, walks2, k) by {
        lemma_taken_prefix(walks, (c, steps), k);
        if k < n {
            assert(walks2[k] == walks[k]);
            assert(starts_walk(img, walks, k));
        } else {
            assert forall|e: Edge| #[trigger] opens(img, e) && scan_key(img, e) < scan_key(img, step_edge(steps[0]))
                implies taken(walks2, k).contains(e) by {
                assert(scan_key(img, e) < 4 * (y * img.width + x) + side);
            }
        }
    }
    lemma_walked_contains(steps, 0);
    assert forall|e: Edge| #[trigger] opens(img, e) && scan_key(img, e) < 4 * (y * img.width + x) + side + 1
        implies taken(walks2, walks2.len() as int).contains(e) by {
        if scan_key(img, e) == 4 * (y * img.width + x) + side {
            lemma_edge_index_injective(img, e, (x, y, side));
        }
    }
}

/// Convert the pixel grid into regions, one per colour with
/// `merge_colors` and one per boundary loop without. Fully transparent
/// pixels have nothing to render and are skipped.
///
/// Each loop is a boundary walk of the image, simplified to its corners;
/// the walks are exactly the ones of [`traced`]: they start in scan order,
/// follow the turn rule and take every boundary edge of every visible pixel
/// once. Loops that simplify to fewer than three points are dropped, and the
/// regions come in order of colour value, as [`arrange`] lays them out.
pub fn vectorize(img: &ArgbImage, merge_colors: bool) -> (regions: Vec<Region>)
    requires
        traceable(*img),
    ensures
        exists|walks: Seq<(Argb, Seq<Step>)>|
            traced(*img, walks) && regions_view(regions@) == arrange(kept(walks), merge_colors),
        optimizable(regions@),
        region_loops(regions@) <= region_points(regions@) <= usize::MAX,
{
    let w = img.width as i32;
    let mut visited = vec![0u8; img.width * img.height];
    let mut regions: Vec<Region> = Vec::new();
    let ghost mut walks: Seq<(Argb, Seq<Step>)> = Seq::empty();
    proof {
        assert forall|e: Edge| edge_inside(*img, e) implies (marked(visited@, img.width as int, e)
            <==> taken(walks, 0).contains(e)) by {
            lemma_index_in_bounds(e.0, e.1, img.width as int, img.height as int);
            lemma_clear_bit(e.2 as u8);
        }
        assert(regions_view(regions@) =~= Seq::empty());
    }
    let mut y: usize = 0;
    while y < img.height
        invariant
            traceable(*img),
            w == img.width,
            y <= img.height,
            scan_state(*img, walks, visited@, regions@),
            scanned(*img, walks, 4 * (y * img.width)),
        decreases img.height - y,
    {
        let mut x: usize = 0;
        while x < img.width
            invariant
                traceable(*img),
                w == img.width,
                y < img.height,
                x <= img.width,
                scan_state(*img, walks, visited@, regions@),
                scanned(*img, walks, 4 * (y * img.width + x)),
            decreases img.width - x,
        {
            proof {
                lemma_index_in_bounds(x as int, y as int, img.width as int, img.height as int);
            }
            let color = img.get(x, y);
            if color.a() != 0 {
                let base = (y as i32) * w + (x as i32);
                let mut edge: u8 = 0;
                while edge < 4
                    invariant
                        traceable(*img),
                        w == img.width,
                        y < img.height,
                        x < img.width,
                        edge <= 4,
                        color == img.at(x as int, y as int),
                        color.alpha() != 0,
                        base == y * img.width + x,
                        base < img.width * img.height,
                        scan_state(*img, walks, visited@, regions@),
                        scanned(*img, walks, 4 * (y * img.width + x) + edge),
                    decreases 4 - edge,
                {
                    let ghost here: Edge = (x as int, y as int, edge as int);
                    let ghost used = taken(walks, walks.len() as int);
                    if visited[base as usize] & (1 << edge) != 0 {
                        proof {
                            assert(marked(visited@, img.width as int, here));
                            assert forall|e: Edge| #[trigger] opens(*img, e) && scan_key(*img, e) < 4 * (y * img.width + x) + edge + 1
                                implies taken(walks, walks.len() as int).contains(e) by {
                                if scan_key(*img, e) == 4 * (y * img.width + x) + edge {
                                    lemma_edge_index_injective(*img, e, here);
                                }
                            }
                        }
                    } else {
                        let (sx, sy) = start_vertex(x as i32, y as i32, edge);
                        let dir = edge_direction(edge);
                        if edge_is_boundary(img, color, sx, sy, dir) {
                            proof {
                                assert(edge_of(sx as int, sy as int, dir as int) == here);
                                assert(!marked(visited@, img.width as int, here));
                            }
                            let (raw, Ghost(steps)) = trace_loop(img, &mut visited, x as i32, y as i32, edge, Ghost(used));
                            let points = simplify(&raw);
                            let ghost old_walks = walks;
                            proof {
                                lemma_scan_step(*img, walks, steps, x as int, y as int, edge as int);
                                walks = walks.push((color, steps));
                                assert(walks.drop_last() =~= old_walks);
                            }
                            proof {
                                let ks = kept(old_walks);
                                if points@.len() >= 3 {
                                    assert(kept(walks) == ks.push((color, points@)));
                                    assert(ks.push((color, points@)).drop_last() =~= ks);
                                } else {
                                    assert(kept(walks) == ks);
                                }
                            }
                            if points.len() >= 3 {
                                add_region_loop(&mut regions, color, PathLoop { points });
                            }
                        } else {
                            proof {
                                assert forall|e: Edge| #[trigger] opens(*img, e) && scan_key(*img, e) < 4 * (y * img.width + x) + edge + 1
                                    implies taken(walks, walks.len() as int).contains(e) by {
                                    if scan_key(*img, e) == 4 * (y * img.width + x) + edge {
                                        lemma_edge_index_injective(*img, e, here);
                                    }
                                }
                            }
                        }
                    }
                    edge += 1;
                }
            } else {
                proof {
                    assert forall|e: Edge| #[trigger] opens(*img, e) && scan_key(*img, e) < 4 * (y * img.width + x) + 4
                        implies taken(walks, walks.len() as int).contains(e) by {
                        if scan_key(*img, e) >= 4 * (y * img.width + x) {
                            vstd::arithmetic::div_mod::lemma_fundamental_div_mod_converse(
                                scan_key(*img, e), 4, e.1 * img.width + e.0, e.2);
                            vstd::arithmetic::div_mod::lemma_fundamental_div_mod_converse(
                                scan_key(*img, e), 4, y * img.width + x, scan_key(*img, e) - 4 * (y * img.width + x));
                            lemma_edge_index_injective(*img, e, (x as int, y as int, e.2));
                        }
                    }
                }
            }
            x += 1;
        }
        proof {
            assert(4 * (y * img.width + img.width) == 4 * ((y + 1) * img.width)) by (nonlinear_arith);
        }
        y += 1;
    }
    proof {
        assert forall|e: Edge| #[trigger] opens(*img, e) implies taken(walks, walks.len() as int).contains(e) by {
            lemma_index_in_bounds(e.0, e.1, img.width as int, img.height as int);
            assert(img.height * img.width == img.width * img.height) by (nonlinear_arith);
        }
        assert(traced(*img, walks));
    }
    let out = if merge_colors {
        regions
    } else {
        split_regions(regions)
    };
    proof {
        law_vectorized_in_first_quadrant(*img, walks, merge_colors, out@);
        law_vectorized_counts(*img, walks, merge_colors, out@);
    }
    out
}

pub(crate) proof fn lemma_walked_member(steps: Seq<Step>, e: Edge)
    requires
        walked(steps).contains(e),
    ensures
        exists|j: int| 0 <= j < steps.len() && step_edge(steps[j]) == e,
    decreases steps.len(),
{
    if steps.len() > 0 && step_edge(steps.last()) != e {
        lemma_walked_member(steps.drop_last(), e);
        let j = choose|j: int| 0 <= j < steps.drop_last().len() && step_edge(steps.drop_last()[j]) == e;
        assert(steps[j] == steps.drop_last()[j]);
    }
}

#[verifier::spinoff_prover]
proof fn lemma_walk_prefix(img: ArgbImage, c: Argb, used: Set<Edge>, steps: Seq<Step>, m: int)
    requires
        walk_from(img, c, used, steps),
        0 <= m <= steps.len(),
    ensures
        walked(steps.take(m)).finite(),
        walked(steps.take(m)).len() == m,
        walked(steps.take(m)).disjoint(used),
        forall|j: int| 0 <= j < m ==> is_boundary(img, c, #[trigger] steps[j].0 as int, steps[j].1 as int, steps[j].2 as int),
    decreases m,
{
    if m == 0 {
        assert(walked(steps.take(0)) =~= Set::<Edge>::empty());
    } else {
        let k = m - 1;
        lemma_walk_prefix(img, c, used, steps, k);
        assert(steps.take(m).drop_last() =~= steps.take(k));
        assert(steps.take(m).last() == steps[k]);
        if k > 0 {
            assert(continues(img, c, used, steps, k - 1));
            assert(steps.take(k - 1 + 1) =~= steps.take(k));
        }
        assert(is_free(img, c, used.union(walked(steps.take(k))), steps[k].0 as int, steps[k].1 as int, steps[k].2 as int));
    }
}

/// The steps of a walk are free boundary edges: none was taken before the
/// walk, and none twice.
pub(crate) proof fn lemma_walk_edges(img: ArgbImage, c: Argb, used: Set<Edge>, steps: Seq<Step>)
    requires
        walk_from(img, c, used, steps),
    ensures
        walked(steps).finite(),
        walked(steps).len() == steps.len(),
        walked(steps).disjoint(used),
        forall|j: int| 0 <= j < steps.len() ==> is_boundary(img, c, #[trigger] steps[j].0 as int, steps[j].1 as int, steps[j].2 as int),
{
    lemma_walk_prefix(img, c, used, steps, steps.len() as int);
    assert(steps.take(steps.len() as int) =~= steps);
}

/// A boundary step of a visible colour walks an edge that the scan opens.
proof fn lemma_step_opens(img: ArgbImage, c: Argb, s: Step)
    requires
        is_boundary(img, c, s.0 as int, s.1 as int, s.2 as int),
        c.alpha() != 0,
    ensures
        opens(img, step_edge(s)),
{
}

proof fn lemma_taken_contains(walks: Seq<(Argb, Seq<Step>)>, k1: int, k2: int)
    requires
        0 <= k1 < k2 <= walks.len(),
    ensures
        walked(walks[k1].1).subset_of(taken(walks, k2)),
    decreases k2,
{
    if k1 < k2 - 1 {
        lemma_taken_contains(walks, k1, k2 - 1);
    }
}

proof fn lemma_taken_opens(img: ArgbImage, walks: Seq<(Argb, Seq<Step>)>, k: int)
    requires
        traced(img, walks),
        0 <= k <= walks.len(),
    ensures
        forall|e: Edge| #[trigger] taken(walks, k).contains(e) ==> opens(img, e),
    decreases k,
{
    if k > 0 {
        let i = k - 1;
        lemma_taken_opens(img, walks, i);
        assert(starts_walk(img, walks, i));
        let c = walks[i].0;
        let steps = walks[i].1;
        lemma_walk_edges(img, c, taken(walks, i), steps);
        assert forall|e: Edge| #[trigger] taken(walks, k).contains(e) implies opens(img, e) by {
            if walked(steps).contains(e) {
                lemma_walked_member(steps, e);
                let j = choose|j: int| 0 <= j < steps.len() && step_edge(steps[j]) == e;
                assert(is_boundary(img, c, steps[j].0 as int, steps[j].1 as int, steps[j].2 as int));
                lemma_step_opens(img, c, steps[j]);
            }
        }
    }
}

/// Every boundary edge of every visible pixel is walked exactly once: the
/// walks take exactly the edges that the scan opens, no walk takes an edge
/// twice and no two walks share an edge.
pub proof fn law_boundary_edges_walked_once(img: ArgbImage, walks: Seq<(Argb, Seq<Step>)>)
    requires
        traced(img, walks),
    ensures
        taken(walks, walks.len() as int) == Set::new(|e: Edge| opens(img, e)),
        forall|k: int| 0 <= k < walks.len() ==> #[trigger] walked(walks[k].1).len() == walks[k].1.len(),
        forall|k1: int, k2: int|
            0 <= k1 < k2 < walks.len() ==> #[trigger] walked(walks[k1].1).disjoint(#[trigger] walked(walks[k2].1)),
{
    let n = walks.len() as int;
    assert forall|k: int| 0 <= k < n implies #[trigger] walked(walks[k].1).len() == walks[k].1.len() by {
        assert(starts_walk(img, walks, k));
        lemma_walk_edges(img, walks[k].0, taken(walks, k), walks[k].1);
    }
    assert forall|k1: int, k2: int| 0 <= k1 < k2 < n implies #[trigger] walked(walks[k1].1).disjoint(
        #[trigger] walked(walks[k2].1)) by {
        assert(starts_walk(img, walks, k2));
        lemma_walk_edges(img, walks[k2].0, taken(walks, k2), walks[k2].1);
        lemma_taken_contains(walks, k1, k2);
    }
    lemma_taken_opens(img, walks, n);
    assert(taken(walks, n) =~= Set::new(|e: Edge| opens(img, e)));
}

pub open spec fn weakly_ordered(rs: Seq<(Argb, Seq<Seq<(i32, i32)>>)>) -> bool {
    forall|i: int, j: int| 0 <= i < j < rs.len() ==> #[trigger] rs[i].0.0 <= #[trigger] rs[j].0.0
}

pub open spec fn strictly_ordered(rs: Seq<(Argb, Seq<Seq<(i32, i32)>>)>) -> bool {
    forall|i: int, j: int| 0 <= i < j < rs.len() ==> #[trigger] rs[i].0.0 < #[trigger] rs[j].0.0
}

/// Every region's loops are loops of `ks`, of the region's colour.
pub open spec fn drawn_from(rs: Seq<(Argb, Seq<Seq<(i32, i32)>>)>, ks: Seq<(Argb, Seq<(i32, i32)>)>) -> bool {
    forall|i: int, l: int| 0 <= i < rs.len() && 0 <= l < rs[i].1.len() ==> #[trigger] drawn(rs, ks, i, l)
}

/// Loop `l` of entry `i` of `rs` is a loop of `ks` of the entry's colour.
pub open spec fn drawn(rs: Seq<(Argb, Seq<Seq<(i32, i32)>>)>, ks: Seq<(Argb, Seq<(i32, i32)>)>, i: int, l: int) -> bool {
    exists|k: int| 0 <= k < ks.len() && #[trigger] ks[k] == (rs[i].0, rs[i].1[l])
}

pub(crate) proof fn lemma_rank(rs: Seq<(Argb, Seq<Seq<(i32, i32)>>)>, c: Argb)
    requires
        weakly_ordered(rs),
    ensures
        0 <= rank(rs, c) <= rs.len(),
        forall|i: int| 0 <= i < rank(rs, c) ==> #[trigger] rs[i].0.0 <= c.0,
        forall|i: int| rank(rs, c) <= i < rs.len() ==> #[trigger] rs[i].0.0 > c.0,
    decreases rs.len(),
{
    if rs.len() > 0 {
        let d = rs.drop_last();
        assert(weakly_ordered(d)) by {
            assert forall|i: int, j: int| 0 <= i < j < d.len() implies #[trigger] d[i].0.0 <= #[trigger] d[j].0.0 by {
                assert(rs[i] == d[i] && rs[j] == d[j]);
            }
        }
        lemma_rank(d, c);
        let n = rs.len() - 1;
        assert forall|i: int| 0 <= i < d.len() implies rs[i] == #[trigger] d[i] by {}
        if rs.last().0.0 <= c.0 {
            if rank(d, c) < d.len() {
                assert(d[rank(d, c)].0.0 > c.0);
                assert(rs[rank(d, c)].0.0 <= rs[n].0.0);
            }
            assert forall|i: int| 0 <= i < rank(rs, c) implies #[trigger] rs[i].0.0 <= c.0 by {
                if i < n {
                    assert(d[i].0.0 <= c.0);
                }
            }
        } else {
            assert forall|i: int| rank(rs, c) <= i < rs.len() implies #[trigger] rs[i].0.0 > c.0 by {
                if i < n {
                    assert(d[i].0.0 > c.0);
                }
            }
            assert forall|i: int| 0 <= i < rank(rs, c) implies #[trigger] rs[i].0.0 <= c.0 by {
                assert(d[i].0.0 <= c.0);
            }
        }
    }
}

/// The number of loops over all entries.
pub(crate) open spec fn loop_count(gs: Seq<(Argb, Seq<Seq<(i32, i32)>>)>) -> int
    decreases gs.len(),
{
    if gs.len() == 0 {
        0
    } else {
        loop_count(gs.drop_last()) + gs.last().1.len()
    }
}

proof fn lemma_loop_count_concat(a: Seq<(Argb, Seq<Seq<(i32, i32)>>)>, b: Seq<(Argb, Seq<Seq<(i32, i32)>>)>)
    ensures
        loop_count(a + b) == loop_count(a) + loop_count(b),
    decreases b.len(),
{
    if b.len() == 0 {
        assert(a + b =~= a);
    } else {
        lemma_loop_count_concat(a, b.drop_last());
        assert((a + b).drop_last() =~= a + b.drop_last());
    }
}

proof fn lemma_loop_count_single(x: (Argb, Seq<Seq<(i32, i32)>>))
    ensures
        loop_count(seq![x]) == x.1.len(),
{
    let e = Seq::<(Argb, Seq<Seq<(i32, i32)>>)>::empty();
    assert(seq![x].drop_last() =~= e);
    assert(loop_count(e) == 0);
    assert(seq![x].last() == x);
}

/// Grouping keeps every loop once, in one entry per colour, in strictly
/// increasing order of colour value; each entry's loops are loops of `ks`
/// of its colour.
pub(crate) proof fn lemma_grouped(ks: Seq<(Argb, Seq<(i32, i32)>)>)
    ensures
        strictly_ordered(grouped(ks)),
        forall|i: int| 0 <= i < grouped(ks).len() ==> #[trigger] grouped(ks)[i].1.len() >= 1,
        drawn_from(grouped(ks), ks),
        loop_count(grouped(ks)) == ks.len(),
    decreases ks.len(),
{
    if ks.len() > 0 {
        let d = ks.drop_last();
        lemma_grouped(d);
        let rs = grouped(d);
        let c = ks.last().0;
        let l = ks.last().1;
        let p = rank(rs, c);
        assert(weakly_ordered(rs)) by {
            assert forall|i: int, j: int| 0 <= i < j < rs.len() implies #[trigger] rs[i].0.0 <= #[trigger] rs[j].0.0 by {
                assert(rs[i].0.0 < rs[j].0.0);
            }
        }
        lemma_rank(rs, c);
        let out = grouped(ks);
        assert(out == add_loop(rs, c, l));
        assert forall|k: int| 0 <= k < d.len() implies ks[k] == #[trigger] d[k] by {}
        if p > 0 && rs[p - 1].0 == c {
            let x = (c, rs[p - 1].1.push(l));
            assert(out == rs.update(p - 1, x));
            assert forall|i: int, j: int| 0 <= i < j < out.len() implies #[trigger] out[i].0.0 < #[trigger] out[j].0.0 by {
                assert(rs[i].0.0 < rs[j].0.0);
            }
            assert forall|i: int, m: int| 0 <= i < out.len() && 0 <= m < out[i].1.len() implies #[trigger] drawn(out, ks, i, m) by {
                if i == p - 1 && m == rs[p - 1].1.len() {
                    assert(ks[ks.len() - 1] == (out[i].0, out[i].1[m]));
                } else {
                    assert(out[i].1[m] == rs[i].1[m]);
                    assert(drawn(rs, d, i, m));
                    let k = choose|k: int| 0 <= k < d.len() && #[trigger] d[k] == (rs[i].0, rs[i].1[m]);
                    assert(ks[k] == d[k]);
                }
            }
            let j = p - 1;
            assert(rs =~= rs.take(j) + seq![rs[j]] + rs.skip(j + 1));
            assert(out =~= rs.take(j) + seq![x] + rs.skip(j + 1));
            lemma_loop_count_concat(rs.take(j), seq![rs[j]]);
            lemma_loop_count_concat(rs.take(j) + seq![rs[j]], rs.skip(j + 1));
            lemma_loop_count_concat(rs.take(j), seq![x]);
            lemma_loop_count_concat(rs.take(j) + seq![x], rs.skip(j + 1));
            lemma_loop_count_single(rs[j]);
            lemma_loop_count_single(x);
        } else {
            let x = (c, seq![l]);
            assert(out == rs.insert(p, x));
            assert forall|i: int, j: int| 0 <= i < j < out.len() implies #[trigger] out[i].0.0 < #[trigger] out[j].0.0 by {
                if j < p {
                    assert(out[i] == rs[i] && out[j] == rs[j]);
                } else if j == p {
                    assert(out[i] == rs[i]);
                    assert(rs[i].0.0 <= rs[p - 1].0.0);
                    assert(rs[p - 1].0 != c);
                } else if i == p {
                    assert(out[j] == rs[j - 1]);
                } else if i < p {
                    assert(out[i] == rs[i] && out[j] == rs[j - 1]);
                } else {
                    assert(out[i] == rs[i - 1] && out[j] == rs[j - 1]);
                }
            }
            assert forall|i: int| 0 <= i < out.len() implies #[trigger] out[i].1.len() >= 1 by {
                if i < p {
                    assert(out[i] == rs[i]);
                } else if i > p {
                    assert(out[i] == rs[i - 1]);
                }
            }
            assert forall|i: int, m: int| 0 <= i < out.len() && 0 <= m < out[i].1.len() implies #[trigger] drawn(out, ks, i, m) by {
                if i == p {
                    assert(ks[ks.len() - 1] == (out[i].0, out[i].1[m]));
                } else {
                    let i2 = if i < p { i } else { i - 1 };
                    assert(out[i] == rs[i2]);
                    assert(drawn(rs, d, i2, m));
                    let k = choose|k: int| 0 <= k < d.len() && #[trigger] d[k] == (rs[i2].0, rs[i2].1[m]);
                    assert(ks[k] == d[k]);
                }
            }
            assert(rs =~= rs.take(p) + rs.skip(p));
            assert(out =~= rs.take(p) + seq![x] + rs.skip(p));
            lemma_loop_count_concat(rs.take(p), rs.skip(p));
            lemma_loop_count_concat(rs.take(p), seq![x]);
            lemma_loop_count_concat(rs.take(p) + seq![x], rs.skip(p));
            lemma_loop_count_single(x);
        }
    }
}

proof fn lemma_drawn_prefix(gs: Seq<(Argb, Seq<Seq<(i32, i32)>>)>, ks: Seq<(Argb, Seq<(i32, i32)>)>)
    requires
        drawn_from(gs, ks),
        gs.len() > 0,
    ensures
        drawn_from(gs.drop_last(), ks),
{
    let d = gs.drop_last();
    assert forall|i: int, l: int| 0 <= i < d.len() && 0 <= l < d[i].1.len() implies #[trigger] drawn(d, ks, i, l) by {
        assert(d[i] == gs[i]);
        assert(drawn(gs, ks, i, l));
        let k = choose|k: int| 0 <= k < ks.len() && #[trigger] ks[k] == (gs[i].0, gs[i].1[l]);
        assert(ks[k] == (d[i].0, d[i].1[l]));
    }
}

/// Splitting strictly ordered entries into one entry per loop gives as
/// many entries as loops, each with one loop, in non-decreasing order of
/// colour value, none above the last entry's colour.
proof fn lemma_singles(gs: Seq<(Argb, Seq<Seq<(i32, i32)>>)>, ks: Seq<(Argb, Seq<(i32, i32)>)>)
    requires
        strictly_ordered(gs),
        drawn_from(gs, ks),
    ensures
        singles(gs).len() == loop_count(gs),
        weakly_ordered(singles(gs)),
        forall|i: int| 0 <= i < singles(gs).len() ==> #[trigger] singles(gs)[i].1.len() == 1,
        drawn_from(singles(gs), ks),
        gs.len() > 0 ==> forall|i: int| 0 <= i < singles(gs).len() ==> #[trigger] singles(gs)[i].0.0 <= gs.last().0.0,
    decreases gs.len(),
{
    if gs.len() > 0 {
        let d = gs.drop_last();
        assert(strictly_ordered(d)) by {
            assert forall|i: int, j: int| 0 <= i < j < d.len() implies #[trigger] d[i].0.0 < #[trigger] d[j].0.0 by {
                assert(d[i] == gs[i] && d[j] == gs[j]);
            }
        }
        lemma_drawn_prefix(gs, ks);
        lemma_singles(d, ks);
        let a = singles(d);
        let g = gs.last();
        let b = g.1.map_values(|l: Seq<(i32, i32)>| (g.0, seq![l]));
        let out = singles(gs);
        assert(out == a + b);
        let n = gs.len() - 1;
        assert(g == gs[n]);
        assert forall|i: int| 0 <= i < a.len() implies #[trigger] a[i].0.0 < g.0.0 by {
            assert(a[i].0.0 <= d.last().0.0);
            assert(d.last() == gs[n - 1]);
        }
        assert forall|i: int, j: int| 0 <= i < j < out.len() implies #[trigger] out[i].0.0 <= #[trigger] out[j].0.0 by {
            if j < a.len() {
                assert(out[i] == a[i] && out[j] == a[j]);
            } else if i < a.len() {
                assert(out[i] == a[i] && out[j] == b[j - a.len()]);
            } else {
                assert(out[i] == b[i - a.len()] && out[j] == b[j - a.len()]);
            }
        }
        assert forall|i: int| 0 <= i < out.len() implies #[trigger] out[i].1.len() == 1 && out[i].0.0 <= gs.last().0.0 by {
            if i < a.len() {
                assert(out[i] == a[i]);
            } else {
                assert(out[i] == b[i - a.len()]);
            }
        }
        assert forall|i: int, m: int| 0 <= i < out.len() && 0 <= m < out[i].1.len() implies #[trigger] drawn(out, ks, i, m) by {
            if i < a.len() {
                assert(out[i] == a[i]);
                assert(drawn(a, ks, i, m));
                let k = choose|k: int| 0 <= k < ks.len() && #[trigger] ks[k] == (a[i].0, a[i].1[m]);
                assert(ks[k] == (out[i].0, out[i].1[m]));
            } else {
                let q = i - a.len();
                assert(out[i] == b[q]);
                assert(m == 0);
                assert(out[i].1[0] == g.1[q]);
                assert(drawn(gs, ks, n, q));
                let k = choose|k: int| 0 <= k < ks.len() && #[trigger] ks[k] == (gs[n].0, gs[n].1[q]);
                assert(ks[k] == (out[i].0, out[i].1[m]));
            }
        }
    }
}

/// The regions [`arrange`] lays out come in order of colour value: with
/// `merge`, one region per colour in strictly increasing order; without,
/// one region per loop in non-decreasing order. Each region has at least
/// one loop, and each of its loops is one of the laid-out loops of its
/// colour.
pub proof fn law_arrange_order(ks: Seq<(Argb, Seq<(i32, i32)>)>, merge: bool)
    ensures
        weakly_ordered(arrange(ks, merge)),
        merge ==> strictly_ordered(arrange(ks, merge)),
        !merge ==> arrange(ks, merge).len() == ks.len(),
        !merge ==> forall|i: int| 0 <= i < ks.len() ==> #[trigger] arrange(ks, merge)[i].1.len() == 1,
        forall|i: int| 0 <= i < arrange(ks, merge).len() ==> #[trigger] arrange(ks, merge)[i].1.len() >= 1,
        drawn_from(arrange(ks, merge), ks),
{
    lemma_grouped(ks);
    let gs = grouped(ks);
    if merge {
        assert forall|i: int, j: int| 0 <= i < j < gs.len() implies #[trigger] gs[i].0.0 <= #[trigger] gs[j].0.0 by {
            assert(gs[i].0.0 < gs[j].0.0);
        }
    } else {
        lemma_singles(gs, ks);
    }
}

proof fn lemma_kept_visible(walks: Seq<(Argb, Seq<Step>)>)
    requires
        forall|k: int| 0 <= k < walks.len() ==> (#[trigger] walks[k]).0.alpha() != 0,
    ensures
        forall|k: int| 0 <= k < kept(walks).len() ==> (#[trigger] kept(walks)[k]).0.alpha() != 0
            && kept(walks)[k].1.len() >= 3,
    decreases walks.len(),
{
    if walks.len() > 0 {
        let d = walks.drop_last();
        assert forall|k: int| 0 <= k < d.len() implies (#[trigger] d[k]).0.alpha() != 0 by {
            assert(d[k] == walks[k]);
        }
        lemma_kept_visible(d);
        assert(walks[walks.len() - 1].0.alpha() != 0);
        let rest = kept(d);
        let pts = spec_simplify(walk_points(walks.last().1));
        if pts.len() >= 3 {
            let ks = rest.push((walks.last().0, pts));
            assert(kept(walks) == ks);
            assert forall|k: int| 0 <= k < ks.len() implies (#[trigger] ks[k]).0.alpha() != 0 && ks[k].1.len() >= 3 by {
                if k < rest.len() {
                    assert(ks[k] == rest[k]);
                }
            }
        } else {
            assert(kept(walks) == rest);
        }
    }
}

/// Every region traced from an image has a visible colour, and every loop
/// of it has at least three corners.
pub proof fn law_regions_visible(img: ArgbImage, walks: Seq<(Argb, Seq<Step>)>, merge: bool)
    requires
        traced(img, walks),
    ensures
        forall|i: int| 0 <= i < arrange(kept(walks), merge).len() ==> (#[trigger] arrange(kept(walks), merge)[i]).0.alpha() != 0,
        forall|i: int, l: int|
            0 <= i < arrange(kept(walks), merge).len() && 0 <= l < arrange(kept(walks), merge)[i].1.len()
                ==> (#[trigger] arrange(kept(walks), merge)[i].1[l]).len() >= 3,
{
    assert forall|k: int| 0 <= k < walks.len() implies (#[trigger] walks[k]).0.alpha() != 0 by {
        assert(starts_walk(img, walks, k));
    }
    lemma_kept_visible(walks);
    law_arrange_order(kept(walks), merge);
    let ks = kept(walks);
    let rs = arrange(ks, merge);
    assert forall|i: int| 0 <= i < rs.len() implies (#[trigger] rs[i]).0.alpha() != 0 by {
        assert(rs[i].1.len() >= 1);
        assert(drawn(rs, ks, i, 0));
        let k = choose|k: int| 0 <= k < ks.len() && #[trigger] ks[k] == (rs[i].0, rs[i].1[0]);
    }
    assert forall|i: int, l: int| 0 <= i < rs.len() && 0 <= l < rs[i].1.len() implies (#[trigger] rs[i].1[l]).len() >= 3 by {
        assert(drawn(rs, ks, i, l));
        let k = choose|k: int| 0 <= k < ks.len() && #[trigger] ks[k] == (rs[i].0, rs[i].1[l]);
    }
}

// ---------------------------------------------------------------------------
// Every walk closes
// ---------------------------------------------------------------------------

/// The vertex from which a step in direction `d` arrives at `(vx, vy)`.
spec fn back(vx: int, vy: int, d: int) -> (int, int) {
    if d == 0 {
        (vx - 1, vy)
    } else if d == 1 {
        (vx, vy - 1)
    } else if d == 2 {
        (vx + 1, vy)
    } else {
        (vx, vy + 1)
    }
}

spec fn ind(b: bool) -> int {
    if b {
        1
    } else {
        0
    }
}

/// Does `es` hold the boundary edge of colour `c` leaving `(vx, vy)` in
/// direction `d`?
spec fn holds_out(img: ArgbImage, c: Argb, es: Set<Edge>, vx: int, vy: int, d: int) -> bool {
    es.contains(edge_of(vx, vy, d)) && is_boundary(img, c, vx, vy, d)
}

/// Does `es` hold the boundary edge of colour `c` arriving at `(vx, vy)` in
/// direction `d`?
spec fn holds_in(img: ArgbImage, c: Argb, es: Set<Edge>, vx: int, vy: int, d: int) -> bool {
    let u = back(vx, vy, d);
    es.contains(edge_of(u.0, u.1, d)) && is_boundary(img, c, u.0, u.1, d)
}

/// The boundary edges of colour `c` in `es` that leave `(vx, vy)`.
spec fn leaving(img: ArgbImage, c: Argb, es: Set<Edge>, vx: int, vy: int) -> int {
    ind(holds_out(img, c, es, vx, vy, 0)) + ind(holds_out(img, c, es, vx, vy, 1)) + ind(
        holds_out(img, c, es, vx, vy, 2),
    ) + ind(holds_out(img, c, es, vx, vy, 3))
}

/// The boundary edges of colour `c` in `es` that arrive at `(vx, vy)`.
spec fn arriving(img: ArgbImage, c: Argb, es: Set<Edge>, vx: int, vy: int) -> int {
    ind(holds_in(img, c, es, vx, vy, 0)) + ind(holds_in(img, c, es, vx, vy, 1)) + ind(
        holds_in(img, c, es, vx, vy, 2),
    ) + ind(holds_in(img, c, es, vx, vy, 3))
}

/// At every vertex, as many boundary edges of each colour in `es` leave as
/// arrive.
spec fn balanced(img: ArgbImage, es: Set<Edge>) -> bool {
    forall|c: Argb, vx: int, vy: int| #[trigger] leaving(img, c, es, vx, vy) == arriving(img, c, es, vx, vy)
}

/// Around every vertex, as many boundary edges of a colour leave as arrive:
/// going round the four pixels at the vertex, the colour is entered as
/// often as it is left.
#[verifier::spinoff_prover]
proof fn lemma_boundary_balance(img: ArgbImage, c: Argb, vx: int, vy: int)
    ensures
        ind(is_boundary(img, c, vx, vy, 0)) + ind(is_boundary(img, c, vx, vy, 1)) + ind(is_boundary(img, c, vx, vy, 2))
            + ind(is_boundary(img, c, vx, vy, 3)) == ind(is_boundary(img, c, vx - 1, vy, 0)) + ind(
            is_boundary(img, c, vx, vy - 1, 1),
        ) + ind(is_boundary(img, c, vx + 1, vy, 2)) + ind(is_boundary(img, c, vx, vy + 1, 3)),
{
    let ne = inside(img, vx, vy - 1) && img.at(vx, vy - 1) == c;
    let se = inside(img, vx, vy) && img.at(vx, vy) == c;
    let sw = inside(img, vx - 1, vy) && img.at(vx - 1, vy) == c;
    let nw = inside(img, vx - 1, vy - 1) && img.at(vx - 1, vy - 1) == c;
    assert(is_boundary(img, c, vx, vy, 0) == (ne && !se));
    assert(is_boundary(img, c, vx, vy, 1) == (se && !sw));
    assert(is_boundary(img, c, vx, vy, 2) == (sw && !nw));
    assert(is_boundary(img, c, vx, vy, 3) == (nw && !ne));
    assert(is_boundary(img, c, vx - 1, vy, 0) == (nw && !sw));
    assert(is_boundary(img, c, vx, vy - 1, 1) == (ne && !nw));
    assert(is_boundary(img, c, vx + 1, vy, 2) == (se && !ne));
    assert(is_boundary(img, c, vx, vy + 1, 3) == (sw && !se));
}

/// An edge names one vertex and direction.
proof fn lemma_edge_of_injective(ax: int, ay: int, ad: int, bx: int, by: int, bd: int)
    requires
        0 <= ad < 4,
        0 <= bd < 4,
        edge_of(ax, ay, ad) == edge_of(bx, by, bd),
    ensures
        ax == bx,
        ay == by,
        ad == bd,
{
}

/// Adding one edge to a set changes the counts at its two ends only.
#[verifier::spinoff_prover]
proof fn lemma_insert_flow(img: ArgbImage, c: Argb, es: Set<Edge>, px: int, py: int, dp: int, vx: int, vy: int)
    requires
        0 <= dp < 4,
        !es.contains(edge_of(px, py, dp)),
    ensures
        leaving(img, c, es.insert(edge_of(px, py, dp)), vx, vy) == leaving(img, c, es, vx, vy) + ind(
            vx == px && vy == py && is_boundary(img, c, px, py, dp),
        ),
        arriving(img, c, es.insert(edge_of(px, py, dp)), vx, vy) == arriving(img, c, es, vx, vy) + ind(
            vx == advance(px, py, dp).0 && vy == advance(px, py, dp).1 && is_boundary(img, c, px, py, dp),
        ),
{
    let e = edge_of(px, py, dp);
    let es2 = es.insert(e);
    assert forall|d: int| 0 <= d < 4 implies #[trigger] holds_out(img, c, es2, vx, vy, d) == (holds_out(img, c, es, vx, vy, d)
        || (vx == px && vy == py && d == dp && is_boundary(img, c, px, py, dp))) by {
        if edge_of(vx, vy, d) == e {
            lemma_edge_of_injective(vx, vy, d, px, py, dp);
        }
    }
    assert forall|d: int| 0 <= d < 4 implies #[trigger] holds_in(img, c, es2, vx, vy, d) == (holds_in(img, c, es, vx, vy, d)
        || (vx == advance(px, py, dp).0 && vy == advance(px, py, dp).1 && d == dp && is_boundary(img, c, px, py, dp))) by {
        let u = back(vx, vy, d);
        if edge_of(u.0, u.1, d) == e {
            lemma_edge_of_injective(u.0, u.1, d, px, py, dp);
        }
    }
    assert(holds_out(img, c, es2, vx, vy, 0) == (holds_out(img, c, es, vx, vy, 0) || (vx == px && vy == py && 0 == dp && is_boundary(img, c, px, py, dp))));
    assert(holds_out(img, c, es2, vx, vy, 1) == (holds_out(img, c, es, vx, vy, 1) || (vx == px && vy == py && 1 == dp && is_boundary(img, c, px, py, dp))));
    assert(holds_out(img, c, es2, vx, vy, 2) == (holds_out(img, c, es, vx, vy, 2) || (vx == px && vy == py && 2 == dp && is_boundary(img, c, px, py, dp))));
    assert(holds_out(img, c, es2, vx, vy, 3) == (holds_out(img, c, es, vx, vy, 3) || (vx == px && vy == py && 3 == dp && is_boundary(img, c, px, py, dp))));
    let a = advance(px, py, dp);
    assert(holds_in(img, c, es2, vx, vy, 0) == (holds_in(img, c, es, vx, vy, 0) || (vx == a.0 && vy == a.1 && 0 == dp && is_boundary(img, c, px, py, dp))));
    assert(holds_in(img, c, es2, vx, vy, 1) == (holds_in(img, c, es, vx, vy, 1) || (vx == a.0 && vy == a.1 && 1 == dp && is_boundary(img, c, px, py, dp))));
    assert(holds_in(img, c, es2, vx, vy, 2) == (holds_in(img, c, es, vx, vy, 2) || (vx == a.0 && vy == a.1 && 2 == dp && is_boundary(img, c, px, py, dp))));
    assert(holds_in(img, c, es2, vx, vy, 3) == (holds_in(img, c, es, vx, vy, 3) || (vx == a.0 && vy == a.1 && 3 == dp && is_boundary(img, c, px, py, dp))));
    // An edge that is already held is not the new one.
    if vx == px && vy == py {
        assert(!holds_out(img, c, es, vx, vy, dp));
    }
    if vx == a.0 && vy == a.1 {
        assert(back(vx, vy, dp) == (px, py));
        assert(!holds_in(img, c, es, vx, vy, dp));
    }
}

proof fn lemma_empty_flow(img: ArgbImage, c: Argb, vx: int, vy: int)
    ensures
        leaving(img, c, Set::<Edge>::empty(), vx, vy) == 0,
        arriving(img, c, Set::<Edge>::empty(), vx, vy) == 0,
{
}

/// Counts over two disjoint sets add up.
#[verifier::spinoff_prover]
proof fn lemma_union_flow(img: ArgbImage, c: Argb, a: Set<Edge>, b: Set<Edge>, vx: int, vy: int)
    requires
        a.disjoint(b),
    ensures
        leaving(img, c, a.union(b), vx, vy) == leaving(img, c, a, vx, vy) + leaving(img, c, b, vx, vy),
        arriving(img, c, a.union(b), vx, vy) == arriving(img, c, a, vx, vy) + arriving(img, c, b, vx, vy),
{
    assert forall|d: int| #[trigger] holds_out(img, c, a.union(b), vx, vy, d) == (holds_out(img, c, a, vx, vy, d)
        || holds_out(img, c, b, vx, vy, d)) by {}
    assert forall|d: int| !(#[trigger] holds_out(img, c, a, vx, vy, d) && holds_out(img, c, b, vx, vy, d)) by {}
    assert forall|d: int| #[trigger] holds_in(img, c, a.union(b), vx, vy, d) == (holds_in(img, c, a, vx, vy, d)
        || holds_in(img, c, b, vx, vy, d)) by {}
    assert forall|d: int| !(#[trigger] holds_in(img, c, a, vx, vy, d) && holds_in(img, c, b, vx, vy, d)) by {}
    assert(holds_out(img, c, a.union(b), vx, vy, 0) == (holds_out(img, c, a, vx, vy, 0) || holds_out(img, c, b, vx, vy, 0)));
    assert(holds_out(img, c, a.union(b), vx, vy, 1) == (holds_out(img, c, a, vx, vy, 1) || holds_out(img, c, b, vx, vy, 1)));
    assert(holds_out(img, c, a.union(b), vx, vy, 2) == (holds_out(img, c, a, vx, vy, 2) || holds_out(img, c, b, vx, vy, 2)));
    assert(holds_out(img, c, a.union(b), vx, vy, 3) == (holds_out(img, c, a, vx, vy, 3) || holds_out(img, c, b, vx, vy, 3)));
    assert(holds_in(img, c, a.union(b), vx, vy, 0) == (holds_in(img, c, a, vx, vy, 0) || holds_in(img, c, b, vx, vy, 0)));
    assert(holds_in(img, c, a.union(b), vx, vy, 1) == (holds_in(img, c, a, vx, vy, 1) || holds_in(img, c, b, vx, vy, 1)));
    assert(holds_in(img, c, a.union(b), vx, vy, 2) == (holds_in(img, c, a, vx, vy, 2) || holds_in(img, c, b, vx, vy, 2)));
    assert(holds_in(img, c, a.union(b), vx, vy, 3) == (holds_in(img, c, a, vx, vy, 3) || holds_in(img, c, b, vx, vy, 3)));
    assert(!(holds_out(img, c, a, vx, vy, 0) && holds_out(img, c, b, vx, vy, 0)));
    assert(!(holds_out(img, c, a, vx, vy, 1) && holds_out(img, c, b, vx, vy, 1)));
    assert(!(holds_out(img, c, a, vx, vy, 2) && holds_out(img, c, b, vx, vy, 2)));
    assert(!(holds_out(img, c, a, vx, vy, 3) && holds_out(img, c, b, vx, vy, 3)));
    assert(!(holds_in(img, c, a, vx, vy, 0) && holds_in(img, c, b, vx, vy, 0)));
    assert(!(holds_in(img, c, a, vx, vy, 1) && holds_in(img, c, b, vx, vy, 1)));
    assert(!(holds_in(img, c, a, vx, vy, 2) && holds_in(img, c, b, vx, vy, 2)));
    assert(!(holds_in(img, c, a, vx, vy, 3) && holds_in(img, c, b, vx, vy, 3)));
}

/// The walk of its first `m` steps leaves its start once more than it
/// arrives there, and arrives at the end of step `m` once more than it
/// leaves it; every other vertex, and every other colour, balances.
#[verifier::spinoff_prover]
proof fn lemma_walk_flow(img: ArgbImage, c0: Argb, used: Set<Edge>, steps: Seq<Step>, m: int)
    requires
        walk_from(img, c0, used, steps),
        1 <= m <= steps.len(),
    ensures
        forall|j: int| 0 <= j < m ==> (#[trigger] steps[j]).2 < 4,
        forall|c: Argb, vx: int, vy: int|
            #[trigger] leaving(img, c, walked(steps.take(m)), vx, vy) - arriving(img, c, walked(steps.take(m)), vx, vy)
                == if c == c0 {
                ind(vx == steps[0].0 && vy == steps[0].1) - ind(
                    vx == step_end(steps[m - 1]).0 && vy == step_end(steps[m - 1]).1,
                )
            } else {
                0
            },
    decreases m,
{
    let w = walked(steps.take(m));
    let k = m - 1;
    let p = (steps[k].0 as int, steps[k].1 as int);
    let dp = steps[k].2 as int;
    if m == 1 {
        assert(steps.take(1).drop_last() =~= Seq::<Step>::empty());
        assert(walked(steps.take(1).drop_last()) =~= Set::<Edge>::empty());
    } else {
        lemma_walk_flow(img, c0, used, steps, k);
        assert(continues(img, c0, used, steps, k - 1));
        assert(steps.take(k - 1 + 1) =~= steps.take(k));
    }
    assert(steps.take(m).drop_last() =~= steps.take(k));
    assert(steps.take(m).last() == steps[k]);
    let prev = walked(steps.take(k));
    assert(w == prev.insert(edge_of(p.0, p.1, dp)));
    assert(dp < 4);
    assert(is_free(img, c0, used.union(prev), p.0, p.1, dp)) by {
        if k > 0 {
            assert(continues(img, c0, used, steps, k - 1));
            assert(steps.take(k - 1 + 1) =~= steps.take(k));
        } else {
            assert(prev =~= Set::<Edge>::empty());
            assert(used.union(prev) =~= used);
        }
    }
    assert forall|c: Argb, vx: int, vy: int|
        #[trigger] leaving(img, c, w, vx, vy) - arriving(img, c, w, vx, vy) == if c == c0 {
            ind(vx == steps[0].0 && vy == steps[0].1) - ind(vx == step_end(steps[m - 1]).0 && vy == step_end(steps[m - 1]).1)
        } else {
            0
        } by {
        lemma_insert_flow(img, c, prev, p.0, p.1, dp, vx, vy);
        assert(is_boundary(img, c, p.0, p.1, dp) == (c == c0));
        if k == 0 {
            assert(prev =~= Set::<Edge>::empty());
            lemma_empty_flow(img, c, vx, vy);
        } else {
            assert(leaving(img, c, prev, vx, vy) - arriving(img, c, prev, vx, vy) == if c == c0 {
                ind(vx == steps[0].0 && vy == steps[0].1) - ind(vx == step_end(steps[k - 1]).0 && vy == step_end(steps[k - 1]).1)
            } else {
                0
            });
        }
    }
}

/// Every step of a walk goes in one of the four directions.
pub(crate) proof fn lemma_walk_directions(img: ArgbImage, c: Argb, used: Set<Edge>, steps: Seq<Step>)
    requires
        walk_from(img, c, used, steps),
    ensures
        forall|j: int| 0 <= j < steps.len() ==> (#[trigger] steps[j]).2 < 4,
{
    lemma_walk_flow(img, c, used, steps, steps.len() as int);
}

/// The reverse of a boundary edge is no boundary edge of the same colour:
/// the pixel on its right does not have that colour.
proof fn lemma_no_u_turn(img: ArgbImage, c: Argb, px: int, py: int, d: int)
    requires
        0 <= d < 4,
        is_boundary(img, c, px, py, d),
    ensures
        !is_boundary(img, c, advance(px, py, d).0, advance(px, py, d).1, (d + 2) % 4),
{
}

/// A walk that starts with a balanced set of taken edges ends where it
/// started: stuck at any other vertex, it would have arrived there more
/// often than it left, with every edge out of it taken.
#[verifier::spinoff_prover]
proof fn lemma_walk_closes(img: ArgbImage, c0: Argb, used: Set<Edge>, steps: Seq<Step>)
    requires
        walk_from(img, c0, used, steps),
        balanced(img, used),
    ensures
        step_end(steps.last()) == (steps[0].0 as int, steps[0].1 as int),
{
    let n = steps.len() as int;
    lemma_walk_flow(img, c0, used, steps, n);
    lemma_walk_edges(img, c0, used, steps);
    assert(steps.take(n) =~= steps);
    let w = walked(steps);
    let t = used.union(w);
    let e = step_end(steps.last());
    let d = steps.last().2 as int;
    assert(steps[n - 1].2 < 4);
    if e != (steps[0].0 as int, steps[0].1 as int) {
        assert(leaving(img, c0, w, e.0, e.1) - arriving(img, c0, w, e.0, e.1) == -1);
        lemma_union_flow(img, c0, used, w, e.0, e.1);
        assert(leaving(img, c0, used, e.0, e.1) == arriving(img, c0, used, e.0, e.1));
        // Stuck: every boundary edge out of `e` is taken.
        assert(stuck(img, c0, used, steps));
        lemma_no_u_turn(img, c0, steps[n - 1].0 as int, steps[n - 1].1 as int, d);
        assert forall|dd: int| 0 <= dd < 4 && is_boundary(img, c0, e.0, e.1, dd) implies #[trigger] holds_out(img, c0, t, e.0, e.1, dd) by {
            if dd != (d + 3) % 4 && dd != d && dd != (d + 1) % 4 {
                assert(dd == (d + 2) % 4);
            }
        }
        assert(holds_out(img, c0, t, e.0, e.1, 0) == is_boundary(img, c0, e.0, e.1, 0));
        assert(holds_out(img, c0, t, e.0, e.1, 1) == is_boundary(img, c0, e.0, e.1, 1));
        assert(holds_out(img, c0, t, e.0, e.1, 2) == is_boundary(img, c0, e.0, e.1, 2));
        assert(holds_out(img, c0, t, e.0, e.1, 3) == is_boundary(img, c0, e.0, e.1, 3));
        lemma_boundary_balance(img, c0, e.0, e.1);
        assert(holds_in(img, c0, t, e.0, e.1, 0) ==> is_boundary(img, c0, e.0 - 1, e.1, 0));
        assert(holds_in(img, c0, t, e.0, e.1, 1) ==> is_boundary(img, c0, e.0, e.1 - 1, 1));
        assert(holds_in(img, c0, t, e.0, e.1, 2) ==> is_boundary(img, c0, e.0 + 1, e.1, 2));
        assert(holds_in(img, c0, t, e.0, e.1, 3) ==> is_boundary(img, c0, e.0, e.1 + 1, 3));
        assert(false);
    }
}

/// The walk `steps` ends at the vertex where it started.
pub open spec fn closes(steps: Seq<Step>) -> bool {
    step_end(steps.last()) == (steps[0].0 as int, steps[0].1 as int)
}

#[verifier::spinoff_prover]
proof fn lemma_taken_balanced(img: ArgbImage, walks: Seq<(Argb, Seq<Step>)>, k: int)
    requires
        traced(img, walks),
        0 <= k <= walks.len(),
    ensures
        balanced(img, taken(walks, k)),
        forall|j: int| 0 <= j < k ==> closes(#[trigger] walks[j].1),
    decreases k,
{
    if k == 0 {
        assert forall|c: Argb, vx: int, vy: int| #[trigger] leaving(img, c, taken(walks, 0), vx, vy) == arriving(img, c, taken(walks, 0), vx, vy) by {
            lemma_empty_flow(img, c, vx, vy);
        }
    } else {
        let i = k - 1;
        lemma_taken_balanced(img, walks, i);
        assert(starts_walk(img, walks, i));
        let c0 = walks[i].0;
        let steps = walks[i].1;
        let used = taken(walks, i);
        let n = steps.len() as int;
        lemma_walk_closes(img, c0, used, steps);
        lemma_walk_flow(img, c0, used, steps, n);
        lemma_walk_edges(img, c0, used, steps);
        assert(steps.take(n) =~= steps);
        let w = walked(steps);
        assert forall|c: Argb, vx: int, vy: int| #[trigger] leaving(img, c, taken(walks, k), vx, vy) == arriving(img, c, taken(walks, k), vx, vy) by {
            lemma_union_flow(img, c, used, w, vx, vy);
            assert(leaving(img, c, used, vx, vy) == arriving(img, c, used, vx, vy));
            assert(leaving(img, c, w, vx, vy) - arriving(img, c, w, vx, vy) == if c == c0 {
                ind(vx == steps[0].0 && vy == steps[0].1) - ind(vx == step_end(steps[n - 1]).0 && vy == step_end(steps[n - 1]).1)
            } else {
                0
            });
        }
    }
}

/// Law: every boundary walk ends at the vertex where it started, so the
/// segment that a loop leaves implied, from its last point back to its
/// first, is the last edge walked.
pub proof fn law_walks_close(img: ArgbImage, walks: Seq<(Argb, Seq<Step>)>)
    requires
        traced(img, walks),
    ensures
        forall|k: int| 0 <= k < walks.len() ==> closes(#[trigger] walks[k].1),
{
    lemma_taken_balanced(img, walks, walks.len() as int);
}

// ---------------------------------------------------------------------------
// Traced loops are already minimal
// ---------------------------------------------------------------------------

/// The indices below `k` whose point `keep` keeps, in order.
pub(crate) open spec fn kept_idx(keep: spec_fn(int) -> bool, k: int) -> Seq<int>
    decreases k,
{
    if k <= 0 {
        Seq::empty()
    } else if keep(k - 1) {
        kept_idx(keep, k - 1).push(k - 1)
    } else {
        kept_idx(keep, k - 1)
    }
}

pub(crate) proof fn lemma_kept_idx(pts: Seq<(i32, i32)>, keep: spec_fn(int) -> bool, k: int)
    requires
        0 <= k <= pts.len(),
    ensures
        ({
            let ix = kept_idx(keep, k);
            let sel = select(pts, keep, k);
            &&& sel.len() == ix.len()
            &&& forall|t: int| 0 <= t < ix.len() ==> 0 <= #[trigger] ix[t] < k && keep(ix[t]) && sel[t] == pts[ix[t]]
            &&& forall|t1: int, t2: int| 0 <= t1 < t2 < ix.len() ==> #[trigger] ix[t1] < #[trigger] ix[t2]
            &&& forall|t: int, i: int| #![trigger ix[t], keep(i)] 0 <= t < ix.len() - 1 && ix[t] < i < ix[t + 1] ==> !keep(i)
            &&& ix.len() > 0 ==> forall|i: int| 0 <= i < ix[0] ==> !#[trigger] keep(i)
            &&& ix.len() > 0 ==> forall|i: int| ix[ix.len() - 1] < i < k ==> !#[trigger] keep(i)
            &&& ix.len() == 0 ==> forall|i: int| 0 <= i < k ==> !#[trigger] keep(i)
        }),
    decreases k,
{
    if k > 0 {
        lemma_kept_idx(pts, keep, k - 1);
        let ix0 = kept_idx(keep, k - 1);
        if keep(k - 1) {
            let ix = ix0.push(k - 1);
            assert(kept_idx(keep, k) == ix);
            assert forall|t: int, i: int| #![trigger ix[t], keep(i)] 0 <= t < ix.len() - 1 && ix[t] < i < ix[t + 1] implies !keep(i) by {
                if t < ix0.len() - 1 {
                    assert(ix[t] == ix0[t] && ix[t + 1] == ix0[t + 1]);
                } else {
                    assert(ix[t] == ix0[ix0.len() - 1]);
                }
            }
            assert forall|t: int| 0 <= t < ix.len() implies 0 <= #[trigger] ix[t] < k && keep(ix[t]) && select(pts, keep, k)[t] == pts[ix[t]] by {
                if t < ix0.len() {
                    assert(ix[t] == ix0[t]);
                }
            }
            if ix0.len() > 0 {
                assert forall|i: int| 0 <= i < ix[0] implies !#[trigger] keep(i) by {
                    assert(ix[0] == ix0[0]);
                }
            }
        }
    }
}

/// The step leaving point `i` of a closed loop.
pub open spec fn out_step(pts: Seq<(i32, i32)>, i: int) -> (int, int) {
    diff(pts[i], next_of(pts, i))
}

/// The step arriving at point `i` of a closed loop.
pub open spec fn in_step(pts: Seq<(i32, i32)>, i: int) -> (int, int) {
    diff(prev_of(pts, i), pts[i])
}

pub open spec fn is_unit(v: (int, int)) -> bool {
    v == (1int, 0int) || v == (0int, 1int) || v == (-1int, 0int) || v == (0int, -1int)
}

/// A closed loop of unit steps along the axes that never turns back.
pub open spec fn rook_loop(pts: Seq<(i32, i32)>) -> bool {
    &&& pts.len() >= 1
    &&& forall|i: int|
        0 <= i < pts.len() ==> is_unit(#[trigger] out_step(pts, i)) && out_step(pts, i) != (
        -in_step(pts, i).0,
        -in_step(pts, i).1,
    )
}

pub(crate) proof fn lemma_mod_neighbours(i: int, n: int)
    requires
        0 <= i,
        n >= 1,
    ensures
        (i % n + 1) % n == (i + 1) % n,
        i >= 1 ==> (i % n + n - 1) % n == (i - 1) % n,
        0 <= i % n < n,
{
    vstd::arithmetic::div_mod::lemma_fundamental_div_mod(i, n);
    vstd::arithmetic::div_mod::lemma_mod_bound(i, n);
    let q = i / n;
    let r = i % n;
    assert(i == q * n + r) by (nonlinear_arith)
        requires
            i == n * q + r,
    ;
    assert((q + 1) * n == q * n + n && (q - 1) * n == q * n - n) by (nonlinear_arith);
    assert(0 <= q) by (nonlinear_arith)
        requires
            i == q * n + r,
            0 <= i,
            0 <= r < n,
    ;
    if r + 1 < n {
        vstd::arithmetic::div_mod::lemma_fundamental_div_mod_converse(i + 1, n, q, r + 1);
        vstd::arithmetic::div_mod::lemma_fundamental_div_mod_converse(r + 1, n, 0, r + 1);
    } else {
        vstd::arithmetic::div_mod::lemma_fundamental_div_mod_converse(i + 1, n, q + 1, 0);
        vstd::arithmetic::div_mod::lemma_fundamental_div_mod_converse(r + 1, n, 1, 0);
    }
    if i >= 1 {
        if r >= 1 {
            vstd::arithmetic::div_mod::lemma_fundamental_div_mod_converse(i - 1, n, q, r - 1);
            vstd::arithmetic::div_mod::lemma_fundamental_div_mod_converse(r + n - 1, n, 1, r - 1);
        } else {
            assert(q >= 1) by (nonlinear_arith)
                requires
                    i == q * n + r,
                    r == 0,
                    i >= 1,
                    n >= 1,
                    q >= 0,
            ;
            vstd::arithmetic::div_mod::lemma_fundamental_div_mod_converse(i - 1, n, q - 1, n - 1);
            vstd::arithmetic::div_mod::lemma_fundamental_div_mod_converse(r + n - 1, n, 0, n - 1);
        }
    }
}

/// The loop's points, numbered on around and around.
pub(crate) open spec fn around(pts: Seq<(i32, i32)>, i: int) -> (i32, i32) {
    pts[i % (pts.len() as int)]
}

pub(crate) open spec fn around_step(pts: Seq<(i32, i32)>, i: int) -> (int, int) {
    diff(around(pts, i), around(pts, i + 1))
}

pub(crate) proof fn lemma_around_steps(pts: Seq<(i32, i32)>, i: int)
    requires
        pts.len() >= 1,
        0 <= i,
    ensures
        around_step(pts, i) == out_step(pts, i % (pts.len() as int)),
        i >= 1 ==> in_step(pts, i % (pts.len() as int)) == around_step(pts, i - 1),
{
    lemma_mod_neighbours(i, pts.len() as int);
}

/// Along a straight run, from a corner `a` to the next corner `b`, the
/// loop moves `b - a` times the step leaving `a`.
#[verifier::spinoff_prover]
pub(crate) proof fn lemma_run(pts: Seq<(i32, i32)>, a: int, b: int)
    requires
        rook_loop(pts),
        0 <= a < b,
        forall|i: int| a < i < b ==> collinear_at(pts, #[trigger] (i % (pts.len() as int))),
    ensures
        around(pts, b).0 - around(pts, a).0 == (b - a) * around_step(pts, a).0,
        around(pts, b).1 - around(pts, a).1 == (b - a) * around_step(pts, a).1,
        around_step(pts, b - 1) == around_step(pts, a),
    decreases b - a,
{
    let u = around_step(pts, a);
    if b == a + 1 {
        assert(around_step(pts, a) == diff(around(pts, a), around(pts, a + 1)));
    } else {
        lemma_run(pts, a, b - 1);
        let j = (b - 1) % (pts.len() as int);
        lemma_around_steps(pts, b - 1);
        assert(collinear_at(pts, j));
        assert(in_step(pts, j) == out_step(pts, j));
        assert(around_step(pts, b - 2) == u);
        assert(around_step(pts, b - 1) == u);
        let s = around_step(pts, b - 1);
        assert(around(pts, b).0 - around(pts, b - 1).0 == s.0);
        assert(around(pts, b).1 - around(pts, b - 1).1 == s.1);
        assert((b - a) * u.0 == (b - 1 - a) * u.0 + u.0 && (b - a) * u.1 == (b - 1 - a) * u.1 + u.1) by (nonlinear_arith);
    }
}

proof fn lemma_scaled_cross(l1: int, l2: int, u: (int, int), v: (int, int))
    requires
        l1 >= 1,
        l2 >= 1,
        is_unit(u),
        is_unit(v),
        u != v,
        v != (-u.0, -u.1),
    ensures
        spec_cross((l1 * u.0, l1 * u.1), (l2 * v.0, l2 * v.1)) != 0,
        l1 * u.0 != 0 || l1 * u.1 != 0,
        l2 * v.0 != 0 || l2 * v.1 != 0,
{
    let (u0, u1, v0, v1) = (u.0, u.1, v.0, v.1);
    assert(u0 * v1 - u1 * v0 != 0) by (nonlinear_arith)
        requires
            (u0 == 1 && u1 == 0) || (u0 == 0 && u1 == 1) || (u0 == -1 && u1 == 0) || (u0 == 0 && u1 == -1),
            (v0 == 1 && v1 == 0) || (v0 == 0 && v1 == 1) || (v0 == -1 && v1 == 0) || (v0 == 0 && v1 == -1),
            !(u0 == v0 && u1 == v1),
            !(v0 == -u0 && v1 == -u1),
    ;
    assert((l1 * u0) * (l2 * v1) - (l1 * u1) * (l2 * v0) != 0 && (l1 * u0 != 0 || l1 * u1 != 0) && (l2 * v0 != 0
        || l2 * v1 != 0)) by (nonlinear_arith)
        requires
            l1 >= 1,
            l2 >= 1,
            (u0 == 1 && u1 == 0) || (u0 == 0 && u1 == 1) || (u0 == -1 && u1 == 0) || (u0 == 0 && u1 == -1),
            (v0 == 1 && v1 == 0) || (v0 == 0 && v1 == 1) || (v0 == -1 && v1 == 0) || (v0 == 0 && v1 == -1),
            u0 * v1 - u1 * v0 != 0,
    ;
}

/// The run of the loop from corner `t` of the reduced loop to the next
/// corner, numbered on around the loop: it starts at corner `t`, ends at the
/// next corner, and every point strictly inside it is collinear.
pub(crate) proof fn lemma_corner_run(pts: Seq<(i32, i32)>, t: int) -> (b: int)
    requires
        pts.len() > 3,
        0 <= t < select(pts, |i: int| !collinear_at(pts, i), pts.len() as int).len(),
    ensures
        ({
            let n = pts.len() as int;
            let keep = |i: int| !collinear_at(pts, i);
            let l = select(pts, keep, n);
            let ix = kept_idx(keep, n);
            let m = l.len() as int;
            &&& 0 <= ix[t] < n
            &&& ix[t] < b <= ix[t] + n
            &&& b == if t + 1 < m { ix[t + 1] } else { ix[0] + n }
            &&& forall|i: int| ix[t] < i < b ==> collinear_at(pts, #[trigger] (i % n))
            &&& around(pts, ix[t]) == l[t]
            &&& around(pts, b) == l[(t + 1) % m]
            &&& b % n == ix[(t + 1) % m]
        }),
{
    let n = pts.len() as int;
    let keep = |i: int| !collinear_at(pts, i);
    let l = select(pts, keep, n);
    lemma_kept_idx(pts, keep, n);
    let ix = kept_idx(keep, n);
    let m = l.len() as int;
    let a = ix[t];
    let b = if t + 1 < m {
        ix[t + 1]
    } else {
        ix[0] + n
    };
    let k = (t + 1) % m;
    assert(0 <= a < n);
    if t + 1 < m {
        assert(ix[t] < ix[t + 1]);
        vstd::arithmetic::div_mod::lemma_small_mod((t + 1) as nat, m as nat);
    } else {
        vstd::arithmetic::div_mod::lemma_mod_self_0(m);
        assert(ix[0] <= ix[m - 1]) by {
            if m - 1 > 0 {
                assert(ix[0] < ix[m - 1]);
            }
        }
    }
    assert forall|i: int| a < i < b implies collinear_at(pts, #[trigger] (i % n)) by {
        if i < n {
            vstd::arithmetic::div_mod::lemma_small_mod(i as nat, n as nat);
            assert(!keep(i));
        } else {
            vstd::arithmetic::div_mod::lemma_fundamental_div_mod_converse(i, n, 1, i - n);
            assert(!keep(i - n));
        }
    }
    vstd::arithmetic::div_mod::lemma_small_mod(a as nat, n as nat);
    if t + 1 < m {
        vstd::arithmetic::div_mod::lemma_small_mod(b as nat, n as nat);
    } else {
        vstd::arithmetic::div_mod::lemma_fundamental_div_mod_converse(b, n, 1, ix[0]);
    }
    assert(b % n == ix[k]);
    assert(l[t] == pts[a] && l[k] == pts[ix[k]]);
    b
}

/// The segment of the reduced loop that leaves corner `t` runs straight
/// along the step leaving that corner, for `len >= 1` steps, and arrives
/// at the next corner along that same step.
proof fn lemma_corner_segment(pts: Seq<(i32, i32)>, t: int) -> (len: int)
    requires
        rook_loop(pts),
        pts.len() > 3,
        0 <= t < select(pts, |i: int| !collinear_at(pts, i), pts.len() as int).len(),
    ensures
        ({
            let n = pts.len() as int;
            let keep = |i: int| !collinear_at(pts, i);
            let l = select(pts, keep, n);
            let ix = kept_idx(keep, n);
            let m = l.len() as int;
            let u = out_step(pts, ix[t]);
            let k = (t + 1) % m;
            &&& len >= 1
            &&& diff(l[t], l[k]) == (len * u.0, len * u.1)
            &&& in_step(pts, ix[k]) == u
        }),
{
    let n = pts.len() as int;
    let keep = |i: int| !collinear_at(pts, i);
    let ix = kept_idx(keep, n);
    let a = ix[t];
    let b = lemma_corner_run(pts, t);
    lemma_run(pts, a, b);
    vstd::arithmetic::div_mod::lemma_small_mod(a as nat, n as nat);
    lemma_around_steps(pts, a);
    lemma_around_steps(pts, b);
    b - a
}

#[verifier::spinoff_prover]
proof fn lemma_true_corner(pts: Seq<(i32, i32)>, t: int)
    requires
        rook_loop(pts),
        pts.len() > 3,
        0 <= t < select(pts, |i: int| !collinear_at(pts, i), pts.len() as int).len(),
    ensures
        ({
            let l = select(pts, |i: int| !collinear_at(pts, i), pts.len() as int);
            l[t] != prev_of(l, t) && !redundant(l, t)
        }),
{
    let n = pts.len() as int;
    let keep = |i: int| !collinear_at(pts, i);
    let l = select(pts, keep, n);
    let m = l.len() as int;
    lemma_kept_idx(pts, keep, n);
    let ix = kept_idx(keep, n);
    let p = (t + m - 1) % m;
    lemma_mod_neighbours(t + m - 1, m);
    vstd::arithmetic::div_mod::lemma_fundamental_div_mod_converse(t + m, m, 1, t);
    assert((p + 1) % m == t);
    let len1 = lemma_corner_segment(pts, p);
    let len2 = lemma_corner_segment(pts, t);
    let j = ix[t];
    let u = in_step(pts, j);
    let v = out_step(pts, j);
    // The step into a corner is the step out of the point before it.
    lemma_around_steps(pts, j + n);
    vstd::arithmetic::div_mod::lemma_fundamental_div_mod_converse(j + n, n, 1, j);
    lemma_mod_neighbours(j + n - 1, n);
    assert(is_unit(out_step(pts, (j + n - 1) % n)));
    assert(is_unit(u));
    assert(is_unit(v));
    assert(keep(j));
    assert(u != v);
    assert(v != (-u.0, -u.1));
    let d1 = diff(prev_of(l, t), l[t]);
    let d2 = diff(l[t], next_of(l, t));
    assert(d1 == (len1 * u.0, len1 * u.1));
    assert(d2 == (len2 * v.0, len2 * v.1));
    lemma_scaled_cross(len1, len2, u, v);
    assert(spec_cross(d1, d2) != 0);
}

/// A loop of true corners has nothing to trim, to collapse or to flatten.
#[verifier::spinoff_prover]
proof fn lemma_corners_stay(l: Seq<(i32, i32)>)
    requires
        l.len() > 3,
        forall|t: int| 0 <= t < l.len() ==> l[t] != #[trigger] prev_of(l, t),
        forall|t: int| 0 <= t < l.len() ==> !#[trigger] redundant(l, t),
    ensures
        spec_strip(l) == l,
{
    let m = l.len() as int;
    assert(l.last() != l[0]) by {
        assert(l[0] != prev_of(l, 0));
        vstd::arithmetic::div_mod::lemma_fundamental_div_mod_converse(m - 1, m, 0, m - 1);
    }
    assert(spec_trim(l) == l);
    let k1 = |i: int| l[i] != prev_of(l, i);
    assert forall|i: int| 0 <= i < m implies #[trigger] k1(i) by {
        assert(l[i] != prev_of(l, i));
    }
    lemma_select_all(l, k1, m);
    assert(l.take(m) =~= l);
    assert(spec_dedup(l) == l);
    let k2 = |i: int| !redundant(l, i);
    assert forall|i: int| 0 <= i < m implies #[trigger] k2(i) by {
        assert(!redundant(l, i));
    }
    lemma_select_all(l, k2, m);
    assert(spec_flatten(l) == l);
}

/// A closed loop of unit steps that never turns back has at least four
/// points.
proof fn lemma_rook_loop_len(pts: Seq<(i32, i32)>)
    requires
        rook_loop(pts),
    ensures
        pts.len() >= 4,
{
    let n = pts.len() as int;
    if n == 1 {
        vstd::arithmetic::div_mod::lemma_mod_self_0(1);
        assert(out_step(pts, 0) == (0int, 0int));
        assert(is_unit(out_step(pts, 0)));
    } else if n == 2 {
        vstd::arithmetic::div_mod::lemma_small_mod(1, 2);
        vstd::arithmetic::div_mod::lemma_mod_self_0(2);
        assert((1 + 2 - 1) % 2 == 0) by {
            vstd::arithmetic::div_mod::lemma_mod_self_0(2);
        }
        assert(out_step(pts, 0) == diff(pts[0], pts[1]));
        assert(in_step(pts, 1) == diff(pts[0], pts[1]));
        assert(out_step(pts, 1) == diff(pts[1], pts[0]));
        assert(is_unit(out_step(pts, 1)));
    } else if n == 3 {
        vstd::arithmetic::div_mod::lemma_small_mod(1, 3);
        vstd::arithmetic::div_mod::lemma_small_mod(2, 3);
        vstd::arithmetic::div_mod::lemma_mod_self_0(3);
        let (a, b, c) = (out_step(pts, 0), out_step(pts, 1), out_step(pts, 2));
        assert(a == diff(pts[0], pts[1]) && b == diff(pts[1], pts[2]) && c == diff(pts[2], pts[0]));
        assert(is_unit(a) && is_unit(b) && is_unit(c));
        // Three unit steps along the axes cannot add up to nothing: each
        // changes `x + y` by an odd amount.
        assert(false);
    }
}

/// Law: a closed loop of unit steps along the axes that never turns back,
/// reduced to its corners by [`spec_simplify`], is already minimal: no point
/// of it repeats its predecessor or lies on the line through its
/// neighbours, and the optimiser leaves it exactly as it is. Boundary walks
/// are such loops (see [`law_traced_loops_are_minimal`]).
#[verifier::spinoff_prover]
pub proof fn law_corner_loop_is_minimal(pts: Seq<(i32, i32)>)
    requires
        rook_loop(pts),
    ensures
        forall|t: int| 0 <= t < spec_simplify(pts).len() ==> !#[trigger] redundant(spec_simplify(pts), t),
        spec_strip(spec_simplify(pts)) == spec_simplify(pts),
{
    let n = pts.len() as int;
    lemma_rook_loop_len(pts);
    let keep = |i: int| !collinear_at(pts, i);
    let l = select(pts, keep, n);
    assert(spec_simplify(pts) == l);
    let m = l.len() as int;
    lemma_kept_idx(pts, keep, n);
    // Every point of the reduced loop is a true corner.
    assert forall|t: int| 0 <= t < m implies l[t] != #[trigger] prev_of(l, t) by {
        lemma_true_corner(pts, t);
    }
    assert forall|t: int| 0 <= t < m implies !#[trigger] redundant(l, t) by {
        lemma_true_corner(pts, t);
    }
    if m > 3 {
        lemma_corners_stay(l);
    }
}

/// A closed boundary walk, read as points, is a loop of unit steps along
/// the axes that never turns back.
#[verifier::spinoff_prover]
pub(crate) proof fn lemma_walk_is_rook(img: ArgbImage, c: Argb, used: Set<Edge>, steps: Seq<Step>)
    requires
        walk_from(img, c, used, steps),
        closes(steps),
    ensures
        rook_loop(walk_points(steps)),
{
    let n = steps.len() as int;
    let pts = walk_points(steps);
    lemma_walk_flow(img, c, used, steps, n);
    lemma_walk_edges(img, c, used, steps);
    assert forall|i: int| 0 <= i < n implies out_step(pts, i) == diff(pts[i], pts[(i + 1) % n]) && out_step(pts, i)
        == (advance(steps[i].0 as int, steps[i].1 as int, steps[i].2 as int).0 - steps[i].0, advance(
        steps[i].0 as int,
        steps[i].1 as int,
        steps[i].2 as int,
    ).1 - steps[i].1) by {
        if i + 1 < n {
            vstd::arithmetic::div_mod::lemma_small_mod((i + 1) as nat, n as nat);
            assert(continues(img, c, used, steps, i));
        } else {
            vstd::arithmetic::div_mod::lemma_mod_self_0(n);
        }
    }
    assert forall|i: int| 0 <= i < n implies is_unit(#[trigger] out_step(pts, i)) && out_step(pts, i) != (
        -in_step(pts, i).0,
        -in_step(pts, i).1,
    ) by {
        let p = (i + n - 1) % n;
        lemma_mod_neighbours(i + n - 1, n);
        vstd::arithmetic::div_mod::lemma_fundamental_div_mod_converse(i + n, n, 1, i);
        assert(in_step(pts, i) == out_step(pts, p));
        assert(steps[i].2 < 4 && steps[p].2 < 4);
        if i >= 1 {
            vstd::arithmetic::div_mod::lemma_fundamental_div_mod_converse(i + n - 1, n, 1, i - 1);
            assert(continues(img, c, used, steps, i - 1));
        } else {
            vstd::arithmetic::div_mod::lemma_fundamental_div_mod_converse(n - 1, n, 0, n - 1);
            assert(is_boundary(img, c, steps[n - 1].0 as int, steps[n - 1].1 as int, steps[n - 1].2 as int));
            lemma_no_u_turn(img, c, steps[n - 1].0 as int, steps[n - 1].1 as int, steps[n - 1].2 as int);
        }
    }
}

pub(crate) proof fn lemma_kept_loops(walks: Seq<(Argb, Seq<Step>)>)
    ensures
        forall|j: int| 0 <= j < kept(walks).len() ==> exists|k: int|
            0 <= k < walks.len() && #[trigger] kept(walks)[j] == (walks[k].0, spec_simplify(walk_points(walks[k].1))),
    decreases walks.len(),
{
    if walks.len() > 0 {
        let d = walks.drop_last();
        lemma_kept_loops(d);
        let rest = kept(d);
        let pts = spec_simplify(walk_points(walks.last().1));
        assert forall|j: int| 0 <= j < kept(walks).len() implies exists|k: int|
            0 <= k < walks.len() && #[trigger] kept(walks)[j] == (walks[k].0, spec_simplify(walk_points(walks[k].1))) by {
            if j < rest.len() {
                assert(kept(walks)[j] == rest[j]);
                let k = choose|k: int| 0 <= k < d.len() && #[trigger] rest[j] == (d[k].0, spec_simplify(walk_points(d[k].1)));
                assert(walks[k] == d[k]);
            } else {
                assert(kept(walks)[j] == (walks.last().0, pts));
                assert(walks[walks.len() - 1] == walks.last());
            }
        }
    }
}

/// Law: every loop that [`vectorize`] emits is already minimal: the
/// optimiser leaves it exactly as it is, and no point of it repeats its
/// predecessor or lies on the line through its neighbours.
pub proof fn law_traced_loops_are_minimal(img: ArgbImage, walks: Seq<(Argb, Seq<Step>)>, merge: bool)
    requires
        traced(img, walks),
    ensures
        forall|i: int, l: int|
            0 <= i < arrange(kept(walks), merge).len() && 0 <= l < arrange(kept(walks), merge)[i].1.len()
                ==> spec_strip(#[trigger] arrange(kept(walks), merge)[i].1[l]) == arrange(kept(walks), merge)[i].1[l],
        forall|i: int, l: int, t: int|
            0 <= i < arrange(kept(walks), merge).len() && 0 <= l < arrange(kept(walks), merge)[i].1.len() && 0 <= t
                < arrange(kept(walks), merge)[i].1[l].len() ==> !#[trigger] redundant(
                arrange(kept(walks), merge)[i].1[l],
                t,
            ),
{
    law_walks_close(img, walks);
    lemma_kept_loops(walks);
    law_arrange_order(kept(walks), merge);
    let ks = kept(walks);
    let rs = arrange(ks, merge);
    assert forall|i: int, l: int| 0 <= i < rs.len() && 0 <= l < rs[i].1.len() implies spec_strip(#[trigger] rs[i].1[l])
        == rs[i].1[l] by {
        assert(drawn(rs, ks, i, l));
        let j = choose|j: int| 0 <= j < ks.len() && #[trigger] ks[j] == (rs[i].0, rs[i].1[l]);
        let k = choose|k: int| 0 <= k < walks.len() && #[trigger] ks[j] == (walks[k].0, spec_simplify(walk_points(walks[k].1)));
        assert(starts_walk(img, walks, k));
        assert(closes(walks[k].1));
        lemma_walk_is_rook(img, walks[k].0, taken(walks, k), walks[k].1);
        law_corner_loop_is_minimal(walk_points(walks[k].1));
    }
    assert forall|i: int, l: int, t: int|
        0 <= i < rs.len() && 0 <= l < rs[i].1.len() && 0 <= t < rs[i].1[l].len() implies !#[trigger] redundant(
        rs[i].1[l],
        t,
    ) by {
        assert(drawn(rs, ks, i, l));
        let j = choose|j: int| 0 <= j < ks.len() && #[trigger] ks[j] == (rs[i].0, rs[i].1[l]);
        let k = choose|k: int| 0 <= k < walks.len() && #[trigger] ks[j] == (walks[k].0, spec_simplify(walk_points(walks[k].1)));
        assert(starts_walk(img, walks, k));
        assert(closes(walks[k].1));
        lemma_walk_is_rook(img, walks[k].0, taken(walks, k), walks[k].1);
        law_corner_loop_is_minimal(walk_points(walks[k].1));
    }
}

/// The points of a traced walk have no negative coordinate.
proof fn lemma_walk_quadrant(img: ArgbImage, c: Argb, used: Set<Edge>, steps: Seq<Step>)
    requires
        walk_from(img, c, used, steps),
    ensures
        in_first_quadrant(walk_points(steps)),
        in_first_quadrant(spec_simplify(walk_points(steps))),
{
    lemma_walk_edges(img, c, used, steps);
    lemma_walk_directions(img, c, used, steps);
    let pts = walk_points(steps);
    assert forall|m: int| 0 <= m < pts.len() implies (#[trigger] pts[m]).0 >= 0 && pts[m].1 >= 0 by {
        assert(is_boundary(img, c, steps[m].0 as int, steps[m].1 as int, steps[m].2 as int));
        assert(steps[m].2 < 4);
    }
    if pts.len() > 3 {
        lemma_select_contains(pts, |i: int| !collinear_at(pts, i), pts.len() as int);
        lemma_quadrant_subset(pts, spec_simplify(pts));
    }
}

/// Law: no point of the regions that [`vectorize`] returns has a negative
/// coordinate, so every loop of them can be optimised without overflow.
pub proof fn law_vectorized_in_first_quadrant(
    img: ArgbImage,
    walks: Seq<(Argb, Seq<Step>)>,
    merge: bool,
    regions: Seq<Region>,
)
    requires
        traced(img, walks),
        regions_view(regions) == arrange(kept(walks), merge),
    ensures
        regions_in_first_quadrant(regions),
        optimizable(regions),
{
    let ks = kept(walks);
    let rs = arrange(ks, merge);
    law_arrange_order(ks, merge);
    lemma_kept_loops(walks);
    assert forall|i: int, j: int| 0 <= i < regions.len() && 0 <= j < regions[i].loops@.len() implies in_first_quadrant(
        #[trigger] regions[i].loops@[j].points@,
    ) by {
        assert(regions_view(regions)[i] == region_view(regions[i]));
        assert(rs[i].1[j] == regions[i].loops@[j].points@);
        assert(drawn(rs, ks, i, j));
        let q = choose|q: int| 0 <= q < ks.len() && #[trigger] ks[q] == (rs[i].0, rs[i].1[j]);
        let k = choose|k: int| 0 <= k < walks.len() && #[trigger] ks[q] == (walks[k].0, spec_simplify(walk_points(walks[k].1)));
        assert(starts_walk(img, walks, k));
        lemma_walk_quadrant(img, walks[k].0, taken(walks, k), walks[k].1);
    }
    lemma_regions_quadrant_optimizable(regions);
}

/// Law: optimising the regions that [`vectorize`] returns changes nothing:
/// when every region of `after` is the stripped form of the region of
/// `before` at its place (what [`crate::optimizer::optimize`] ensures),
/// `after` is `before`, loop for loop and point for point, so the point
/// counts before and after agree.
pub proof fn law_optimize_keeps_traced_regions(
    img: ArgbImage,
    walks: Seq<(Argb, Seq<Step>)>,
    merge: bool,
    before: Seq<Region>,
    after: Seq<Region>,
)
    requires
        traced(img, walks),
        regions_view(before) == arrange(kept(walks), merge),
        after.len() == before.len(),
        forall|i: int| 0 <= i < before.len() ==> stripped(before[i], #[trigger] after[i]),
    ensures
        regions_view(after) == regions_view(before),
        region_points(after) == region_points(before),
{
    let rs = arrange(kept(walks), merge);
    law_traced_loops_are_minimal(img, walks, merge);
    assert forall|i: int| 0 <= i < before.len() implies #[trigger] region_view(after[i]) == region_view(before[i]) by {
        assert(stripped(before[i], after[i]));
        assert(regions_view(before)[i] == region_view(before[i]));
        let a = region_view(after[i]).1;
        let b = region_view(before[i]).1;
        assert forall|j: int| 0 <= j < b.len() implies a[j] == b[j] by {
            assert(rs[i].1[j] == b[j]);
            assert(spec_strip(rs[i].1[j]) == rs[i].1[j]);
        }
        assert(a =~= b);
    }
    assert(regions_view(after) =~= regions_view(before));
    lemma_view_counts(after);
    lemma_view_counts(before);
}

// ---------------------------------------------------------------------------
// The walks of an image are unique
// ---------------------------------------------------------------------------

/// Two walks of one colour from the same first step, with the same edges
/// taken before them, are the same walk: every turn is determined.
proof fn lemma_walk_unique(img: ArgbImage, c: Argb, used: Set<Edge>, s1: Seq<Step>, s2: Seq<Step>)
    requires
        walk_from(img, c, used, s1),
        walk_from(img, c, used, s2),
        s1[0] == s2[0],
    ensures
        s1 == s2,
{
    let n1 = s1.len() as int;
    let n2 = s2.len() as int;
    let m = if n1 < n2 { n1 } else { n2 };
    lemma_walk_prefix_same(img, c, used, s1, s2, m - 1);
    assert(s1[m - 1] == s2[m - 1]) by {
        assert(s1.take(m)[m - 1] == s2.take(m)[m - 1]);
    }
    if n1 < n2 {
        assert(s1.take(n1) == s2.take(n1));
        assert(s1.take(n1) =~= s1);
        assert(continues(img, c, used, s2, n1 - 1));
        assert(s1[n1 - 1] == s2[n1 - 1]);
        assert(false);
    } else if n2 < n1 {
        assert(s1.take(n2) == s2.take(n2));
        assert(s2.take(n2) =~= s2);
        assert(continues(img, c, used, s1, n2 - 1));
        assert(s1[n2 - 1] == s2[n2 - 1]);
        assert(false);
    } else {
        assert(s1.take(n1) == s2.take(n1));
        assert(s1.take(n1) =~= s1);
        assert(s2.take(n1) =~= s2);
    }
}

proof fn lemma_walk_prefix_same(img: ArgbImage, c: Argb, used: Set<Edge>, s1: Seq<Step>, s2: Seq<Step>, j: int)
    requires
        walk_from(img, c, used, s1),
        walk_from(img, c, used, s2),
        s1[0] == s2[0],
        0 <= j < s1.len(),
        j < s2.len(),
    ensures
        s1.take(j + 1) == s2.take(j + 1),
    decreases j,
{
    if j == 0 {
        assert(s1.take(1) =~= s2.take(1));
    } else {
        lemma_walk_prefix_same(img, c, used, s1, s2, j - 1);
        assert(continues(img, c, used, s1, j - 1));
        assert(continues(img, c, used, s2, j - 1));
        assert(s1[j - 1] == s2[j - 1]) by {
            assert(s1.take(j)[j - 1] == s2.take(j)[j - 1]);
        }
        assert(s1[j] == s2[j]);
        assert(s1.take(j + 1) =~= s2.take(j + 1)) by {
            assert forall|q: int| 0 <= q < j + 1 implies #[trigger] s1.take(j + 1)[q] == s2.take(j + 1)[q] by {
                if q < j {
                    assert(s1.take(j)[q] == s2.take(j)[q]);
                }
            }
        }
    }
}

proof fn lemma_taken_same(a: Seq<(Argb, Seq<Step>)>, b: Seq<(Argb, Seq<Step>)>, k: int)
    requires
        0 <= k <= a.len(),
        k <= b.len(),
        forall|j: int| 0 <= j < k ==> a[j] == b[j],
    ensures
        taken(a, k) == taken(b, k),
    decreases k,
{
    if k > 0 {
        lemma_taken_same(a, b, k - 1);
        assert(a[k - 1] == b[k - 1]);
    }
}

/// The boundary walks of an image are unique: two sequences of walks that
/// both trace it are equal.
proof fn lemma_traced_unique(img: ArgbImage, w1: Seq<(Argb, Seq<Step>)>, w2: Seq<(Argb, Seq<Step>)>)
    requires
        traced(img, w1),
        traced(img, w2),
    ensures
        w1 == w2,
{
    let n1 = w1.len() as int;
    let n2 = w2.len() as int;
    let m = if n1 < n2 { n1 } else { n2 };
    assert forall|k: int| 0 <= k < m implies w1[k] == w2[k] by {
        lemma_traced_prefix(img, w1, w2, k);
    }
    if n1 != n2 {
        let (short, long) = if n1 < n2 { (w1, w2) } else { (w2, w1) };
        lemma_taken_same(short, long, m);
        assert(starts_walk(img, long, m));
        let e = step_edge(long[m].1[0]);
        assert(opens(img, e));
        assert(taken(short, short.len() as int).contains(e));
        assert(false);
    }
    assert(w1 =~= w2);
}

proof fn lemma_traced_prefix(img: ArgbImage, w1: Seq<(Argb, Seq<Step>)>, w2: Seq<(Argb, Seq<Step>)>, k: int)
    requires
        traced(img, w1),
        traced(img, w2),
        0 <= k < w1.len(),
        k < w2.len(),
    ensures
        forall|j: int| 0 <= j <= k ==> w1[j] == w2[j],
    decreases k,
{
    if k > 0 {
        lemma_traced_prefix(img, w1, w2, k - 1);
    }
    lemma_taken_same(w1, w2, k);
    let used = taken(w1, k);
    assert(starts_walk(img, w1, k));
    assert(starts_walk(img, w2, k));
    let s1 = w1[k].1;
    let s2 = w2[k].1;
    let e1 = step_edge(s1[0]);
    let e2 = step_edge(s2[0]);
    // Both walks start on the first open edge, in scan order, that is not
    // taken yet.
    if scan_key(img, e1) < scan_key(img, e2) {
        assert(taken(w2, k).contains(e1));
        assert(false);
    }
    if scan_key(img, e2) < scan_key(img, e1) {
        assert(taken(w1, k).contains(e2));
        assert(false);
    }
    lemma_edge_index_injective(img, e1, e2);
    lemma_edge_of_injective(
        s1[0].0 as int,
        s1[0].1 as int,
        s1[0].2 as int,
        s2[0].0 as int,
        s2[0].1 as int,
        s2[0].2 as int,
    );
    assert(s1[0] == s2[0]);
    lemma_walk_unique(img, w1[k].0, used, s1, s2);
    assert(w1[k] == w2[k]);
}

/// Law: without merging, [`vectorize`] returns the loops of the merged
/// regions, each as a region of its own with the region's colour, in the
/// same order.
pub proof fn law_unmerged_splits_merged(img: ArgbImage, merged: Seq<Region>, unmerged: Seq<Region>)
    requires
        exists|w: Seq<(Argb, Seq<Step>)>| traced(img, w) && regions_view(merged) == arrange(kept(w), true),
        exists|w: Seq<(Argb, Seq<Step>)>| traced(img, w) && regions_view(unmerged) == arrange(kept(w), false),
    ensures
        regions_view(unmerged) == singles(regions_view(merged)),
{
    let w1 = choose|w: Seq<(Argb, Seq<Step>)>| traced(img, w) && regions_view(merged) == arrange(kept(w), true);
    let w2 = choose|w: Seq<(Argb, Seq<Step>)>| traced(img, w) && regions_view(unmerged) == arrange(kept(w), false);
    lemma_traced_unique(img, w1, w2);
}

// ---------------------------------------------------------------------------
// How many loops and points the regions hold
// ---------------------------------------------------------------------------

/// The number of points over all loops of `ls`.
pub(crate) open spec fn loops_points(ls: Seq<Seq<(i32, i32)>>) -> int
    decreases ls.len(),
{
    if ls.len() == 0 {
        0
    } else {
        loops_points(ls.drop_last()) + ls.last().len()
    }
}

/// The number of points over all loops of all entries.
pub(crate) open spec fn entry_points(gs: Seq<(Argb, Seq<Seq<(i32, i32)>>)>) -> int
    decreases gs.len(),
{
    if gs.len() == 0 {
        0
    } else {
        entry_points(gs.drop_last()) + loops_points(gs.last().1)
    }
}

/// The number of points over all laid-out loops.
pub(crate) open spec fn kept_points(ks: Seq<(Argb, Seq<(i32, i32)>)>) -> int
    decreases ks.len(),
{
    if ks.len() == 0 {
        0
    } else {
        kept_points(ks.drop_last()) + ks.last().1.len()
    }
}

/// The number of steps over all walks.
spec fn walk_steps(walks: Seq<(Argb, Seq<Step>)>) -> int
    decreases walks.len(),
{
    if walks.len() == 0 {
        0
    } else {
        walk_steps(walks.drop_last()) + walks.last().1.len()
    }
}

proof fn lemma_entry_points_concat(a: Seq<(Argb, Seq<Seq<(i32, i32)>>)>, b: Seq<(Argb, Seq<Seq<(i32, i32)>>)>)
    ensures
        entry_points(a + b) == entry_points(a) + entry_points(b),
    decreases b.len(),
{
    if b.len() == 0 {
        assert(a + b =~= a);
    } else {
        lemma_entry_points_concat(a, b.drop_last());
        assert((a + b).drop_last() =~= a + b.drop_last());
        assert((a + b).last() == b.last());
    }
}

proof fn lemma_entry_points_single(x: (Argb, Seq<Seq<(i32, i32)>>))
    ensures
        entry_points(seq![x]) == loops_points(x.1),
{
    let e = Seq::<(Argb, Seq<Seq<(i32, i32)>>)>::empty();
    assert(seq![x].drop_last() =~= e);
    assert(entry_points(e) == 0);
    assert(seq![x].last() == x);
}

proof fn lemma_loops_points_single(l: Seq<(i32, i32)>)
    ensures
        loops_points(seq![l]) == l.len(),
{
    let e = Seq::<Seq<(i32, i32)>>::empty();
    assert(seq![l].drop_last() =~= e);
    assert(loops_points(e) == 0);
    assert(seq![l].last() == l);
}

proof fn lemma_entry_points_update(gs: Seq<(Argb, Seq<Seq<(i32, i32)>>)>, p: int, x: (Argb, Seq<Seq<(i32, i32)>>))
    requires
        0 <= p < gs.len(),
    ensures
        entry_points(gs.update(p, x)) == entry_points(gs) - loops_points(gs[p].1) + loops_points(x.1),
{
    let a = gs.take(p);
    let c = gs.skip(p + 1);
    assert(gs =~= a + (seq![gs[p]] + c));
    assert(gs.update(p, x) =~= a + (seq![x] + c));
    lemma_entry_points_concat(a, seq![gs[p]] + c);
    lemma_entry_points_concat(seq![gs[p]], c);
    lemma_entry_points_concat(a, seq![x] + c);
    lemma_entry_points_concat(seq![x], c);
    lemma_entry_points_single(gs[p]);
    lemma_entry_points_single(x);
}

proof fn lemma_entry_points_insert(gs: Seq<(Argb, Seq<Seq<(i32, i32)>>)>, p: int, x: (Argb, Seq<Seq<(i32, i32)>>))
    requires
        0 <= p <= gs.len(),
    ensures
        entry_points(gs.insert(p, x)) == entry_points(gs) + loops_points(x.1),
{
    let a = gs.take(p);
    let c = gs.skip(p);
    assert(gs =~= a + c);
    assert(gs.insert(p, x) =~= a + (seq![x] + c));
    lemma_entry_points_concat(a, c);
    lemma_entry_points_concat(a, seq![x] + c);
    lemma_entry_points_concat(seq![x], c);
    lemma_entry_points_single(x);
}

proof fn lemma_grouped_points(ks: Seq<(Argb, Seq<(i32, i32)>)>)
    ensures
        entry_points(grouped(ks)) == kept_points(ks),
    decreases ks.len(),
{
    if ks.len() > 0 {
        let d = ks.drop_last();
        lemma_grouped_points(d);
        lemma_grouped(d);
        let rs = grouped(d);
        let c = ks.last().0;
        let l = ks.last().1;
        let p = rank(rs, c);
        assert(weakly_ordered(rs)) by {
            assert forall|i: int, j: int| 0 <= i < j < rs.len() implies #[trigger] rs[i].0.0 <= #[trigger] rs[j].0.0 by {
                assert(rs[i].0.0 < rs[j].0.0);
            }
        }
        lemma_rank(rs, c);
        if p > 0 && rs[p - 1].0 == c {
            let ls = rs[p - 1].1;
            assert(ls.push(l).drop_last() =~= ls);
            assert(loops_points(ls.push(l)) == loops_points(ls) + l.len());
            lemma_entry_points_update(rs, p - 1, (c, ls.push(l)));
        } else {
            lemma_loops_points_single(l);
            lemma_entry_points_insert(rs, p, (c, seq![l]));
        }
    }
}

proof fn lemma_singles_points(gs: Seq<(Argb, Seq<Seq<(i32, i32)>>)>)
    ensures
        entry_points(singles(gs)) == entry_points(gs),
    decreases gs.len(),
{
    if gs.len() > 0 {
        lemma_singles_points(gs.drop_last());
        let c = gs.last().0;
        let ls = gs.last().1;
        lemma_entry_points_concat(singles(gs.drop_last()), ls.map_values(|l: Seq<(i32, i32)>| (c, seq![l])));
        lemma_split_points(c, ls);
    }
}

proof fn lemma_split_points(c: Argb, ls: Seq<Seq<(i32, i32)>>)
    ensures
        entry_points(ls.map_values(|l: Seq<(i32, i32)>| (c, seq![l]))) == loops_points(ls),
    decreases ls.len(),
{
    if ls.len() > 0 {
        lemma_split_points(c, ls.drop_last());
        let m = ls.map_values(|l: Seq<(i32, i32)>| (c, seq![l]));
        assert(m.drop_last() =~= ls.drop_last().map_values(|l: Seq<(i32, i32)>| (c, seq![l])));
        lemma_loops_points_single(ls.last());
    }
}

proof fn lemma_loops_count(ls: Seq<Seq<(i32, i32)>>)
    requires
        forall|j: int| 0 <= j < ls.len() ==> (#[trigger] ls[j]).len() >= 1,
    ensures
        ls.len() <= loops_points(ls),
    decreases ls.len(),
{
    if ls.len() > 0 {
        let d = ls.drop_last();
        assert forall|j: int| 0 <= j < d.len() implies (#[trigger] d[j]).len() >= 1 by {
            assert(d[j] == ls[j]);
        }
        lemma_loops_count(d);
        assert(ls.last() == ls[ls.len() - 1]);
    }
}

proof fn lemma_entry_count(gs: Seq<(Argb, Seq<Seq<(i32, i32)>>)>)
    requires
        forall|i: int, l: int| 0 <= i < gs.len() && 0 <= l < gs[i].1.len() ==> (#[trigger] gs[i].1[l]).len() >= 1,
    ensures
        loop_count(gs) <= entry_points(gs),
    decreases gs.len(),
{
    if gs.len() > 0 {
        let d = gs.drop_last();
        assert forall|i: int, l: int| 0 <= i < d.len() && 0 <= l < d[i].1.len() implies (#[trigger] d[i].1[l]).len() >= 1 by {
            assert(d[i] == gs[i]);
        }
        lemma_entry_count(d);
        let n = gs.len() - 1;
        assert(gs.last() == gs[n]);
        assert forall|j: int| 0 <= j < gs[n].1.len() implies (#[trigger] gs[n].1[j]).len() >= 1 by {}
        lemma_loops_count(gs[n].1);
    }
}

proof fn lemma_view_counts(regions: Seq<Region>)
    ensures
        region_points(regions) == entry_points(regions_view(regions)),
        region_loops(regions) == loop_count(regions_view(regions)),
    decreases regions.len(),
{
    if regions.len() > 0 {
        let d = regions.drop_last();
        lemma_view_counts(d);
        assert(regions_view(regions).drop_last() =~= regions_view(d));
        let r = regions.last();
        assert(regions_view(regions).last() == region_view(r));
        lemma_loop_points_view(r.loops@);
    }
}

proof fn lemma_loop_points_view(ls: Seq<PathLoop>)
    ensures
        loop_points(ls) == loops_points(ls.map_values(|l: PathLoop| l.points@)),
    decreases ls.len(),
{
    if ls.len() > 0 {
        lemma_loop_points_view(ls.drop_last());
        assert(ls.map_values(|l: PathLoop| l.points@).drop_last() =~= ls.drop_last().map_values(|l: PathLoop| l.points@));
    }
}

proof fn lemma_kept_points(walks: Seq<(Argb, Seq<Step>)>)
    ensures
        kept_points(kept(walks)) <= walk_steps(walks),
        kept(walks).len() <= kept_points(kept(walks)),
    decreases walks.len(),
{
    if walks.len() > 0 {
        let d = walks.drop_last();
        lemma_kept_points(d);
        let steps = walks.last().1;
        let pts = walk_points(steps);
        let sp = spec_simplify(pts);
        if pts.len() > 3 {
            lemma_select_len(pts, |i: int| !collinear_at(pts, i), pts.len() as int);
        }
        if sp.len() >= 3 {
            let ks = kept(d).push((walks.last().0, sp));
            assert(kept(walks) == ks);
            assert(ks.drop_last() =~= kept(d));
        }
    }
}

/// The steps of walks that take no edge twice and share no edge count the
/// edges they take.
proof fn lemma_walk_steps(walks: Seq<(Argb, Seq<Step>)>)
    requires
        forall|k: int| 0 <= k < walks.len() ==> (#[trigger] walked(walks[k].1)).finite() && walked(walks[k].1).len()
            == walks[k].1.len(),
        forall|k1: int, k2: int|
            0 <= k1 < k2 < walks.len() ==> #[trigger] walked(walks[k1].1).disjoint(#[trigger] walked(walks[k2].1)),
    ensures
        taken(walks, walks.len() as int).finite(),
        walk_steps(walks) == taken(walks, walks.len() as int).len(),
    decreases walks.len(),
{
    if walks.len() > 0 {
        let n = walks.len() - 1;
        let d = walks.drop_last();
        assert forall|k: int| 0 <= k < d.len() implies (#[trigger] walked(d[k].1)).finite() && walked(d[k].1).len()
            == d[k].1.len() by {
            assert(d[k] == walks[k]);
        }
        assert forall|k1: int, k2: int| 0 <= k1 < k2 < d.len() implies #[trigger] walked(d[k1].1).disjoint(
            #[trigger] walked(d[k2].1),
        ) by {
            assert(d[k1] == walks[k1] && d[k2] == walks[k2]);
        }
        lemma_walk_steps(d);
        lemma_taken_same(d, walks, n);
        let t = taken(walks, n);
        let w = walked(walks[n].1);
        assert(walks.last() == walks[n]);
        assert(walked(walks[n].1).finite() && walked(walks[n].1).len() == walks[n].1.len());
        assert(t.disjoint(w)) by {
            assert forall|e: Edge| t.contains(e) implies !w.contains(e) by {
                lemma_taken_member(walks, n, e);
                let k = choose|k: int| 0 <= k < n && walked(walks[k].1).contains(e);
                assert(walked(walks[k].1).disjoint(walked(walks[n].1)));
            }
        }
        vstd::set_lib::lemma_set_disjoint_lens(t, w);
        assert(taken(walks, n + 1) == t.union(w));
    }
}

proof fn lemma_taken_member(walks: Seq<(Argb, Seq<Step>)>, k: int, e: Edge)
    requires
        0 <= k <= walks.len(),
        taken(walks, k).contains(e),
    ensures
        exists|j: int| 0 <= j < k && walked(walks[j].1).contains(e),
    decreases k,
{
    if k > 0 && !walked(walks[k - 1].1).contains(e) {
        lemma_taken_member(walks, k - 1, e);
    }
}

/// Law: the regions that [`vectorize`] returns hold no more loops than
/// points, and no more points than four per pixel, so for a traceable image
/// both counts are machine integers.
pub proof fn law_vectorized_counts(img: ArgbImage, walks: Seq<(Argb, Seq<Step>)>, merge: bool, regions: Seq<Region>)
    requires
        traced(img, walks),
        regions_view(regions) == arrange(kept(walks), merge),
    ensures
        region_loops(regions) <= region_points(regions),
        region_points(regions) <= 4 * img.width * img.height,
        traceable(img) ==> region_points(regions) <= usize::MAX,
{
    let ks = kept(walks);
    let rs = arrange(ks, merge);
    lemma_view_counts(regions);
    lemma_grouped_points(ks);
    if !merge {
        lemma_singles_points(grouped(ks));
    }
    law_regions_visible(img, walks, merge);
    lemma_entry_count(rs);
    lemma_kept_points(walks);
    law_boundary_edges_walked_once(img, walks);
    assert forall|k: int| 0 <= k < walks.len() implies (#[trigger] walked(walks[k].1)).finite() && walked(walks[k].1).len()
        == walks[k].1.len() by {
        assert(starts_walk(img, walks, k));
        lemma_walk_edges(img, walks[k].0, taken(walks, k), walks[k].1);
    }
    lemma_walk_steps(walks);
    let all = taken(walks, walks.len() as int);
    assert forall|e: Edge| #[trigger] all.contains(e) implies edge_inside(img, e) by {
        assert(Set::new(|e: Edge| opens(img, e)).contains(e));
    }
    lemma_edges_bound(img, all);
    if traceable(img) {
        assert(4 * img.width * img.height == 4 * (img.width * img.height)) by (nonlinear_arith);
    }
}

} // verus!
