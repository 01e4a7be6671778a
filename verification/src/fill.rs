//! The even-odd fill of traced regions.
//!
//! A region is drawn as its loops filled by the even-odd rule: a pixel is
//! painted when the ray from its centre towards increasing x crosses the
//! region's loops an odd number of times. Traced with merged colours, the
//! regions reproduce the grid: each fills exactly the pixels of its colour,
//! and there is one region for every visible colour of the image.
//! Optimising a loop never changes the pixels it fills.
use vstd::prelude::*;
use crate::optimizer::{
    flatten_pass, lemma_dedup_no_repeats, lemma_select_len, no_adjacent_repeats, next_of, prev_of, redundant, select,
    spec_cross, spec_dedup, spec_flatten, spec_strip, spec_trim, diff, stripped,
};
use crate::vectorizer::{
    add_loop, arrange, around, around_step, closes, collinear_at, continues, drawn, grouped, inside,
    is_boundary, is_unit, kept, kept_idx, law_arrange_order, law_boundary_edges_walked_once,
    law_regions_visible, law_walks_close, lemma_around_steps, lemma_corner_run, lemma_grouped,
    region_view, lemma_mod_neighbours, lemma_kept_idx, lemma_kept_loops, lemma_rank, lemma_run, lemma_walk_directions, lemma_walk_edges,
    lemma_walk_is_rook, lemma_walked_member, opens, out_step, rank, regions_view, rook_loop,
    spec_simplify, starts_walk, step_edge, step_end, taken, traced, walk_from, walk_points, walked,
    weakly_ordered, Edge, Region, Step,
};
use crate::xbrz_engine::{Argb, ArgbImage};

verus! {

/// The segment from `a` to `b` is vertical, lies right of the centre of
/// pixel `(x, y)` and spans that pixel's row: the ray from the centre
/// towards increasing x crosses it.
pub open spec fn crosses(a: (i32, i32), b: (i32, i32), x: int, y: int) -> bool {
    &&& a.0 == b.0
    &&& a.0 > x
    &&& (a.1 <= y && y + 1 <= b.1) || (b.1 <= y && y + 1 <= a.1)
}

/// How many of the first `k` segments of the closed loop `l` the ray from
/// the centre of pixel `(x, y)` crosses.
pub open spec fn crossings_upto(l: Seq<(i32, i32)>, k: int, x: int, y: int) -> nat
    decreases k,
{
    if k <= 0 {
        0
    } else {
        crossings_upto(l, k - 1, x, y) + if crosses(l[k - 1], next_of(l, k - 1), x, y) {
            1nat
        } else {
            0nat
        }
    }
}

/// How many segments of the closed loop `l`, the closing one included, the
/// ray from the centre of pixel `(x, y)` crosses.
pub open spec fn crossings(l: Seq<(i32, i32)>, x: int, y: int) -> nat {
    crossings_upto(l, l.len() as int, x, y)
}

/// The crossings of all loops of `ls`.
pub open spec fn loops_crossings(ls: Seq<Seq<(i32, i32)>>, x: int, y: int) -> nat
    decreases ls.len(),
{
    if ls.len() == 0 {
        0
    } else {
        loops_crossings(ls.drop_last(), x, y) + crossings(ls.last(), x, y)
    }
}

/// Some pixel of `img` has colour `c`.
pub open spec fn occurs(img: ArgbImage, c: Argb) -> bool {
    exists|x: int, y: int| inside(img, x, y) && #[trigger] img.at(x, y) == c
}

/// The loops `ls`, filled by the even-odd rule, paint pixel `(x, y)`.
pub open spec fn fills(ls: Seq<Seq<(i32, i32)>>, x: int, y: int) -> bool {
    loops_crossings(ls, x, y) % 2 == 1
}

// ---------------------------------------------------------------------------
// Reducing a loop to its corners keeps its crossings
// ---------------------------------------------------------------------------

/// The crossings of the segments `a .. b` of the loop read around and
/// around.
spec fn run_crossings(pts: Seq<(i32, i32)>, a: int, b: int, x: int, y: int) -> nat
    decreases b - a,
{
    if b <= a {
        0
    } else {
        run_crossings(pts, a, b - 1, x, y) + if crosses(around(pts, b - 1), around(pts, b), x, y) {
            1nat
        } else {
            0nat
        }
    }
}

proof fn lemma_run_split(pts: Seq<(i32, i32)>, a: int, b: int, c: int, x: int, y: int)
    requires
        a <= b <= c,
    ensures
        run_crossings(pts, a, c, x, y) == run_crossings(pts, a, b, x, y) + run_crossings(pts, b, c, x, y),
    decreases c - b,
{
    if c > b {
        lemma_run_split(pts, a, b, c - 1, x, y);
    }
}

proof fn lemma_run_period(pts: Seq<(i32, i32)>, a: int, b: int, x: int, y: int)
    requires
        pts.len() >= 1,
        a <= b,
    ensures
        run_crossings(pts, a + pts.len(), b + pts.len(), x, y) == run_crossings(pts, a, b, x, y),
    decreases b - a,
{
    let n = pts.len() as int;
    if b > a {
        lemma_run_period(pts, a, b - 1, x, y);
        vstd::arithmetic::div_mod::lemma_mod_add_multiples_vanish(b - 1, n);
        vstd::arithmetic::div_mod::lemma_mod_add_multiples_vanish(b, n);
        assert(around(pts, b - 1 + n) == around(pts, b - 1));
        assert(around(pts, b + n) == around(pts, b));
    }
}

proof fn lemma_run_whole(pts: Seq<(i32, i32)>, k: int, x: int, y: int)
    requires
        0 <= k <= pts.len(),
    ensures
        crossings_upto(pts, k, x, y) == run_crossings(pts, 0, k, x, y),
    decreases k,
{
    if k > 0 {
        lemma_run_whole(pts, k - 1, x, y);
        vstd::arithmetic::div_mod::lemma_small_mod((k - 1) as nat, pts.len());
        assert(around(pts, k - 1) == pts[k - 1]);
        assert(around(pts, k) == next_of(pts, k - 1));
    }
}

/// A straight run of unit steps crosses the ray once if the segment from
/// its start to its end does, and not at all otherwise.
#[verifier::spinoff_prover]
proof fn lemma_straight_run(pts: Seq<(i32, i32)>, a: int, b: int, x: int, y: int)
    requires
        rook_loop(pts),
        0 <= a <= b,
        forall|i: int| a < i < b ==> collinear_at(pts, #[trigger] (i % (pts.len() as int))),
    ensures
        run_crossings(pts, a, b, x, y) == if crosses(around(pts, a), around(pts, b), x, y) {
            1nat
        } else {
            0nat
        },
    decreases b - a,
{
    let n = pts.len() as int;
    if b > a {
        lemma_straight_run(pts, a, b - 1, x, y);
        lemma_run(pts, a, b);
        if b - 1 > a {
            lemma_run(pts, a, b - 1);
        }
        vstd::arithmetic::div_mod::lemma_mod_bound(a, n);
        lemma_around_steps(pts, a);
        let u = around_step(pts, a);
        assert(is_unit(out_step(pts, a % n)));
        let k = b - 1 - a;
        let p = around(pts, a);
        let q = around(pts, b - 1);
        let r = around(pts, b);
        assert(q.0 - p.0 == k * u.0 && q.1 - p.1 == k * u.1);
        assert(r.0 - p.0 == (k + 1) * u.0 && r.1 - p.1 == (k + 1) * u.1);
        if u == (1int, 0int) || u == (-1int, 0int) {
            assert(k * u.1 == 0 && (k + 1) * u.1 == 0) by (nonlinear_arith)
                requires
                    u.1 == 0,
            ;
            assert((k + 1) * u.0 != 0) by (nonlinear_arith)
                requires
                    u.0 == 1 || u.0 == -1,
                    k >= 0,
            ;
            assert(k == 0 || k * u.0 != 0) by (nonlinear_arith)
                requires
                    u.0 == 1 || u.0 == -1,
                    k >= 0,
            ;
        } else if u == (0int, 1int) {
            assert(k * u.0 == 0 && (k + 1) * u.0 == 0 && k * u.1 == k && (k + 1) * u.1 == k + 1) by (nonlinear_arith)
                requires
                    u.0 == 0,
                    u.1 == 1,
            ;
        } else {
            assert(u == (0int, -1int));
            assert(k * u.0 == 0 && (k + 1) * u.0 == 0 && k * u.1 == -k && (k + 1) * u.1 == -k - 1) by (nonlinear_arith)
                requires
                    u.0 == 0,
                    u.1 == -1,
            ;
        }
    }
}

/// The corners of a loop of more than three points, and their indices.
spec fn corners(pts: Seq<(i32, i32)>) -> Seq<(i32, i32)> {
    select(pts, |i: int| !collinear_at(pts, i), pts.len() as int)
}

spec fn corner_idx(pts: Seq<(i32, i32)>) -> Seq<int> {
    kept_idx(|i: int| !collinear_at(pts, i), pts.len() as int)
}

/// The first `t` segments of the reduced loop cross the ray as often as the
/// runs of the loop that they replace.
proof fn lemma_corner_prefix(pts: Seq<(i32, i32)>, t: int, x: int, y: int)
    requires
        rook_loop(pts),
        pts.len() > 3,
        1 <= corners(pts).len(),
        0 <= t <= corners(pts).len(),
    ensures
        crossings_upto(corners(pts), t, x, y) == run_crossings(
            pts,
            corner_idx(pts)[0],
            if t < corners(pts).len() {
                corner_idx(pts)[t]
            } else {
                corner_idx(pts)[0] + pts.len()
            },
            x,
            y,
        ),
    decreases t,
{
    let n = pts.len() as int;
    let keep = |i: int| !collinear_at(pts, i);
    lemma_kept_idx(pts, keep, n);
    let l = corners(pts);
    let ix = corner_idx(pts);
    let m = l.len() as int;
    if t > 0 {
        lemma_corner_prefix(pts, t - 1, x, y);
        let a = ix[t - 1];
        let b = lemma_corner_run(pts, t - 1);
        lemma_straight_run(pts, a, b, x, y);
        if t - 1 > 0 {
            assert(ix[0] < ix[t - 1]);
        }
        lemma_run_split(pts, ix[0], a, b, x, y);
        assert(next_of(l, t - 1) == l[t % m]);
    }
}

/// Reducing a closed loop of unit steps to its corners keeps the number of
/// times the ray from any pixel centre crosses it.
proof fn lemma_reduced_crossings(pts: Seq<(i32, i32)>, x: int, y: int)
    requires
        rook_loop(pts),
    ensures
        crossings(spec_simplify(pts), x, y) == crossings(pts, x, y),
{
    let n = pts.len() as int;
    if n > 3 {
        let keep = |i: int| !collinear_at(pts, i);
        lemma_kept_idx(pts, keep, n);
        let l = corners(pts);
        let ix = corner_idx(pts);
        let m = l.len() as int;
        assert(spec_simplify(pts) == l);
        if m == 0 {
            // A loop without corners runs straight on and never comes back.
            assert forall|i: int| 0 < i < n implies collinear_at(pts, #[trigger] (i % n)) by {
                vstd::arithmetic::div_mod::lemma_small_mod(i as nat, n as nat);
                assert(!keep(i));
            }
            lemma_run(pts, 0, n);
            vstd::arithmetic::div_mod::lemma_mod_self_0(n);
            vstd::arithmetic::div_mod::lemma_small_mod(0, n as nat);
            lemma_around_steps(pts, 0);
            let u = around_step(pts, 0);
            assert(is_unit(out_step(pts, 0)));
            assert(n * u.0 != 0 || n * u.1 != 0) by (nonlinear_arith)
                requires
                    n > 0,
                    u.0 != 0 || u.1 != 0,
            ;
            assert(false);
        }
        lemma_corner_prefix(pts, m, x, y);
        let a0 = ix[0];
        lemma_run_split(pts, 0, a0, n, x, y);
        lemma_run_split(pts, a0, n, a0 + n, x, y);
        lemma_run_period(pts, 0, a0, x, y);
        lemma_run_whole(pts, n, x, y);
    }
}

// ---------------------------------------------------------------------------
// A closed walk crosses the ray once for every edge of it on the ray
// ---------------------------------------------------------------------------

/// Edge `e` lies on the ray from the centre of pixel `(x, y)` towards
/// increasing x: the left side of a pixel right of `(x, y)` in its row, or
/// the right side of `(x, y)` or of a pixel right of it.
pub open spec fn on_ray(e: Edge, x: int, y: int) -> bool {
    e.1 == y && ((e.2 == 3 && e.0 > x) || (e.2 == 1 && e.0 >= x))
}

pub open spec fn ray(x: int, y: int) -> Set<Edge> {
    Set::new(|e: Edge| on_ray(e, x, y))
}

/// How many steps of `steps` walk an edge on the ray.
spec fn ray_steps(steps: Seq<Step>, x: int, y: int) -> nat
    decreases steps.len(),
{
    if steps.len() == 0 {
        0
    } else {
        ray_steps(steps.drop_last(), x, y) + if on_ray(step_edge(steps.last()), x, y) {
            1nat
        } else {
            0nat
        }
    }
}

proof fn lemma_walk_crossings_prefix(img: ArgbImage, c: Argb, used: Set<Edge>, steps: Seq<Step>, k: int, x: int, y: int)
    requires
        walk_from(img, c, used, steps),
        closes(steps),
        0 <= k <= steps.len(),
        forall|j: int| 0 <= j < steps.len() ==> (#[trigger] steps[j]).2 < 4,
    ensures
        crossings_upto(walk_points(steps), k, x, y) == ray_steps(steps.take(k), x, y),
    decreases k,
{
    if k > 0 {
        let n = steps.len() as int;
        let i = k - 1;
        lemma_walk_crossings_prefix(img, c, used, steps, i, x, y);
        assert(steps.take(k).drop_last() =~= steps.take(i));
        assert(steps.take(k).last() == steps[i]);
        let pts = walk_points(steps);
        let st = steps[i];
        let e = step_end(st);
        if i + 1 < n {
            vstd::arithmetic::div_mod::lemma_small_mod((i + 1) as nat, n as nat);
            assert(continues(img, c, used, steps, i));
        } else {
            vstd::arithmetic::div_mod::lemma_mod_self_0(n);
        }
        assert(next_of(pts, i).0 == e.0 && next_of(pts, i).1 == e.1);
        assert(pts[i].0 == st.0 && pts[i].1 == st.1);
        assert(st.2 < 4);
        assert(crosses(pts[i], next_of(pts, i), x, y) == on_ray(step_edge(st), x, y));
    }
}

/// A closed walk crosses the ray from a pixel centre once for every step
/// it takes along an edge on the ray.
proof fn lemma_walk_crossings(img: ArgbImage, c: Argb, used: Set<Edge>, steps: Seq<Step>, x: int, y: int)
    requires
        walk_from(img, c, used, steps),
        closes(steps),
    ensures
        crossings(walk_points(steps), x, y) == ray_steps(steps, x, y),
{
    lemma_walk_directions(img, c, used, steps);
    lemma_walk_crossings_prefix(img, c, used, steps, steps.len() as int, x, y);
    assert(steps.take(steps.len() as int) =~= steps);
}

proof fn lemma_walked_len(steps: Seq<Step>)
    ensures
        walked(steps).finite(),
        walked(steps).len() <= steps.len(),
    decreases steps.len(),
{
    if steps.len() > 0 {
        lemma_walked_len(steps.drop_last());
    }
}

/// When no edge is walked twice, the steps on the ray are the walked edges
/// on the ray.
proof fn lemma_ray_steps_edges(steps: Seq<Step>, x: int, y: int)
    requires
        walked(steps).len() == steps.len(),
    ensures
        walked(steps).intersect(ray(x, y)).finite(),
        ray_steps(steps, x, y) == walked(steps).intersect(ray(x, y)).len(),
    decreases steps.len(),
{
    lemma_walked_len(steps);
    if steps.len() == 0 {
        assert(walked(steps).intersect(ray(x, y)) =~= Set::<Edge>::empty());
    } else {
        let d = steps.drop_last();
        let e = step_edge(steps.last());
        lemma_walked_len(d);
        if walked(d).contains(e) {
            assert(walked(d).insert(e) =~= walked(d));
            assert(false);
        }
        lemma_ray_steps_edges(d, x, y);
        let r = ray(x, y);
        if on_ray(e, x, y) {
            assert(walked(steps).intersect(r) =~= walked(d).intersect(r).insert(e));
        } else {
            assert(walked(steps).intersect(r) =~= walked(d).intersect(r));
        }
    }
}

// ---------------------------------------------------------------------------
// Summed over the walks of one colour
// ---------------------------------------------------------------------------

/// The edges on the ray whose interior pixel has colour `c`.
pub open spec fn colour_ray(img: ArgbImage, c: Argb, x: int, y: int) -> Set<Edge> {
    Set::new(|e: Edge| img.at(e.0, e.1) == c && on_ray(e, x, y))
}

/// The steps on the ray of the first `k` walks of colour `c`.
spec fn colour_ray_steps(walks: Seq<(Argb, Seq<Step>)>, c: Argb, k: int, x: int, y: int) -> nat
    decreases k,
{
    if k <= 0 {
        0
    } else {
        colour_ray_steps(walks, c, k - 1, x, y) + if walks[k - 1].0 == c {
            ray_steps(walks[k - 1].1, x, y)
        } else {
            0nat
        }
    }
}

proof fn lemma_colour_ray_steps(img: ArgbImage, walks: Seq<(Argb, Seq<Step>)>, c: Argb, k: int, x: int, y: int)
    requires
        traced(img, walks),
        0 <= k <= walks.len(),
    ensures
        taken(walks, k).finite(),
        colour_ray_steps(walks, c, k, x, y) == taken(walks, k).intersect(colour_ray(img, c, x, y)).len(),
    decreases k,
{
    let r = colour_ray(img, c, x, y);
    if k == 0 {
        assert(taken(walks, 0).intersect(r) =~= Set::<Edge>::empty());
    } else {
        let i = k - 1;
        lemma_colour_ray_steps(img, walks, c, i, x, y);
        assert(starts_walk(img, walks, i));
        let ci = walks[i].0;
        let steps = walks[i].1;
        let t = taken(walks, i);
        let w = walked(steps);
        lemma_walk_edges(img, ci, t, steps);
        lemma_ray_steps_edges(steps, x, y);
        assert forall|e: Edge| w.contains(e) implies img.at(e.0, e.1) == ci by {
            lemma_walked_member(steps, e);
            let j = choose|j: int| 0 <= j < steps.len() && step_edge(steps[j]) == e;
            assert(is_boundary(img, ci, steps[j].0 as int, steps[j].1 as int, steps[j].2 as int));
        }
        let wr = w.intersect(r);
        if ci == c {
            assert(wr =~= w.intersect(ray(x, y)));
        } else {
            assert(wr =~= Set::<Edge>::empty());
        }
        assert(taken(walks, k) == t.union(w));
        assert(t.union(w).intersect(r) =~= t.intersect(r) + wr);
        vstd::set_lib::lemma_set_disjoint_lens(t.intersect(r), wr);
    }
}

// ---------------------------------------------------------------------------
// Along a row, the boundary edges of a colour alternate
// ---------------------------------------------------------------------------

/// Pixel `(px, y)` lies in the image and has colour `c`.
spec fn pixel_is(img: ArgbImage, c: Argb, px: int, y: int) -> bool {
    inside(img, px, y) && img.at(px, y) == c
}

/// The grid line, counted in columns, on which an edge on the ray lies.
spec fn ray_col(e: Edge) -> int {
    if e.2 == 3 {
        e.0
    } else {
        e.0 + 1
    }
}

/// The boundary edges of colour `c` on the ray that lie on grid lines up to
/// `k`.
spec fn open_ray_upto(img: ArgbImage, c: Argb, x: int, y: int, k: int) -> Set<Edge> {
    Set::new(|e: Edge| opens(img, e) && img.at(e.0, e.1) == c && on_ray(e, x, y) && ray_col(e) <= k)
}

/// Grid line `k + 1` holds one boundary edge of colour `c` on the ray when
/// the pixels on its two sides differ in having that colour, and none
/// otherwise.
proof fn lemma_open_ray_step(img: ArgbImage, c: Argb, x: int, y: int, k: int)
    requires
        c.alpha() != 0,
        0 <= x <= k,
    ensures
        open_ray_upto(img, c, x, y, k + 1) == open_ray_upto(img, c, x, y, k) + if pixel_is(img, c, k, y) && !pixel_is(img, c, k + 1, y) {
            set![(k, y, 1int)]
        } else if pixel_is(img, c, k + 1, y) && !pixel_is(img, c, k, y) {
            set![(k + 1, y, 3int)]
        } else {
            Set::<Edge>::empty()
        },
{
    let lo = open_ray_upto(img, c, x, y, k);
    let hi = open_ray_upto(img, c, x, y, k + 1);
    let add = if pixel_is(img, c, k, y) && !pixel_is(img, c, k + 1, y) {
        set![(k, y, 1int)]
    } else if pixel_is(img, c, k + 1, y) && !pixel_is(img, c, k, y) {
        set![(k + 1, y, 3int)]
    } else {
        Set::<Edge>::empty()
    };
    assert forall|e: Edge| hi.contains(e) implies (lo + add).contains(e) by {
        if ray_col(e) == k + 1 {
            if e.2 == 3 {
                assert(e == (k + 1, y, 3int));
            } else {
                assert(e == (k, y, 1int));
            }
        }
    }
    assert forall|e: Edge| (lo + add).contains(e) implies hi.contains(e) by {
        if add.contains(e) && pixel_is(img, c, k, y) && !pixel_is(img, c, k + 1, y) {
            assert(e == (k, y, 1int));
            assert(is_boundary(img, c, k + 1, y + 1, 3));
        }
        if add.contains(e) && pixel_is(img, c, k + 1, y) && !pixel_is(img, c, k, y) {
            assert(e == (k + 1, y, 3int));
            assert(is_boundary(img, c, k + 1, y, 1));
        }
    }
    assert(hi =~= lo + add);
}

/// Counting the boundary edges of colour `c` on the ray up to grid line
/// `k`: their number is odd exactly when pixel `(x, y)` and pixel `(k, y)`
/// differ in having colour `c`.
proof fn lemma_open_ray_parity(img: ArgbImage, c: Argb, x: int, y: int, k: int)
    requires
        c.alpha() != 0,
        0 <= x <= k,
    ensures
        open_ray_upto(img, c, x, y, k).finite(),
        (open_ray_upto(img, c, x, y, k).len() % 2 == 1) == (pixel_is(img, c, x, y) != pixel_is(img, c, k, y)),
    decreases k - x,
{
    if k == x {
        assert(open_ray_upto(img, c, x, y, k) =~= Set::<Edge>::empty());
    } else {
        lemma_open_ray_parity(img, c, x, y, k - 1);
        lemma_open_ray_step(img, c, x, y, k - 1);
        let lo = open_ray_upto(img, c, x, y, k - 1);
        if pixel_is(img, c, k - 1, y) && !pixel_is(img, c, k, y) {
            assert(!lo.contains((k - 1, y, 1int)));
            vstd::set_lib::lemma_set_disjoint_lens(lo, set![(k - 1, y, 1int)]);
        } else if pixel_is(img, c, k, y) && !pixel_is(img, c, k - 1, y) {
            assert(!lo.contains((k, y, 3int)));
            vstd::set_lib::lemma_set_disjoint_lens(lo, set![(k, y, 3int)]);
        } else {
            assert(lo + Set::<Edge>::empty() =~= lo);
        }
    }
}

/// The boundary edges of a visible colour `c` on the ray from the centre of
/// pixel `(x, y)` are odd in number exactly when that pixel has colour `c`.
proof fn lemma_row_parity(img: ArgbImage, c: Argb, x: int, y: int)
    requires
        c.alpha() != 0,
        inside(img, x, y),
    ensures
        Set::new(|e: Edge| opens(img, e)).intersect(colour_ray(img, c, x, y)).finite(),
        (Set::new(|e: Edge| opens(img, e)).intersect(colour_ray(img, c, x, y)).len() % 2 == 1) == (img.at(x, y) == c),
{
    let w = img.width as int;
    lemma_open_ray_parity(img, c, x, y, w);
    assert(Set::new(|e: Edge| opens(img, e)).intersect(colour_ray(img, c, x, y)) =~= open_ray_upto(img, c, x, y, w));
}

// ---------------------------------------------------------------------------
// Grouping loops by colour sums their crossings
// ---------------------------------------------------------------------------

/// The crossings of the loops of colour `c` among `ks`.
spec fn colour_crossings(ks: Seq<(Argb, Seq<(i32, i32)>)>, c: Argb, x: int, y: int) -> nat
    decreases ks.len(),
{
    if ks.len() == 0 {
        0
    } else {
        colour_crossings(ks.drop_last(), c, x, y) + if ks.last().0 == c {
            crossings(ks.last().1, x, y)
        } else {
            0nat
        }
    }
}

#[verifier::spinoff_prover]
proof fn lemma_grouped_crossings(ks: Seq<(Argb, Seq<(i32, i32)>)>, x: int, y: int)
    ensures
        forall|i: int|
            0 <= i < grouped(ks).len() ==> loops_crossings(#[trigger] grouped(ks)[i].1, x, y) == colour_crossings(
                ks,
                grouped(ks)[i].0,
                x,
                y,
            ),
        forall|c: Argb|
            #[trigger] colour_crossings(ks, c, x, y) > 0 ==> exists|i: int|
                0 <= i < grouped(ks).len() && #[trigger] grouped(ks)[i].0 == c,
    decreases ks.len(),
{
    if ks.len() > 0 {
        let d = ks.drop_last();
        lemma_grouped_crossings(d, x, y);
        lemma_grouped(d);
        let rs = grouped(d);
        let c = ks.last().0;
        let l = ks.last().1;
        let p = rank(rs, c);
        assert(weakly_ordered(rs)) by {
            assert forall|i: int, j: int| 0 <= i < j < rs.len() implies #[trigger] rs[i].0.0 <= #[trigger] rs[j].0.0 by {
                assert(rs[i].0.0 < rs[j].0.0);
            }
        }
        lemma_rank(rs, c);
        assert(grouped(ks) == add_loop(rs, c, l));
        if p > 0 && rs[p - 1].0 == c {
            let g = rs.update(p - 1, (c, rs[p - 1].1.push(l)));
            assert(grouped(ks) == g);
            assert(rs[p - 1].1.push(l).drop_last() =~= rs[p - 1].1);
            assert forall|i: int| 0 <= i < g.len() implies loops_crossings(#[trigger] g[i].1, x, y) == colour_crossings(
                ks,
                g[i].0,
                x,
                y,
            ) by {
                if i != p - 1 {
                    if i < p - 1 {
                        assert(rs[i].0.0 < rs[p - 1].0.0);
                    } else {
                        assert(rs[p - 1].0.0 < rs[i].0.0);
                    }
                    assert(g[i] == rs[i]);
                    assert(rs[i].0 != c);
                }
            }
            assert forall|c2: Argb| #[trigger] colour_crossings(ks, c2, x, y) > 0 implies exists|i: int|
                0 <= i < g.len() && #[trigger] g[i].0 == c2 by {
                if c2 == c {
                    assert(g[p - 1].0 == c2);
                } else {
                    assert(colour_crossings(d, c2, x, y) > 0);
                    let i = choose|i: int| 0 <= i < rs.len() && #[trigger] rs[i].0 == c2;
                    assert(g[i].0 == c2);
                }
            }
        } else {
            assert forall|j: int| 0 <= j < rs.len() implies #[trigger] rs[j].0 != c by {
                if j < p - 1 {
                    assert(rs[j].0.0 < rs[p - 1].0.0);
                } else if j >= p {
                    assert(rs[j].0.0 > c.0);
                }
            }
            if colour_crossings(d, c, x, y) > 0 {
                let i = choose|i: int| 0 <= i < rs.len() && #[trigger] rs[i].0 == c;
                assert(false);
            }
            let g = rs.insert(p, (c, seq![l]));
            assert(grouped(ks) == g);
            let one = seq![l];
            assert(one.drop_last() =~= Seq::<Seq<(i32, i32)>>::empty());
            assert(one.len() == 1 && one.last() == l);
            assert(loops_crossings(one.drop_last(), x, y) == 0);
            assert(loops_crossings(one, x, y) == crossings(l, x, y));
            assert forall|i: int| 0 <= i < g.len() implies loops_crossings(#[trigger] g[i].1, x, y) == colour_crossings(
                ks,
                g[i].0,
                x,
                y,
            ) by {
                if i < p {
                    assert(g[i] == rs[i]);
                } else if i > p {
                    assert(g[i] == rs[i - 1]);
                }
            }
            assert forall|c2: Argb| #[trigger] colour_crossings(ks, c2, x, y) > 0 implies exists|i: int|
                0 <= i < g.len() && #[trigger] g[i].0 == c2 by {
                if c2 == c {
                    assert(g[p].0 == c2);
                } else {
                    assert(colour_crossings(d, c2, x, y) > 0);
                    let i = choose|i: int| 0 <= i < rs.len() && #[trigger] rs[i].0 == c2;
                    if i < p {
                        assert(g[i].0 == c2);
                    } else {
                        assert(g[i + 1].0 == c2);
                    }
                }
            }
        }
    }
}

// ---------------------------------------------------------------------------
// Putting it together
// ---------------------------------------------------------------------------

/// The crossings of the reduced loops of the walks of colour `c` among the
/// first `k`.
spec fn walk_crossings(walks: Seq<(Argb, Seq<Step>)>, c: Argb, k: int, x: int, y: int) -> nat
    decreases k,
{
    if k <= 0 {
        0
    } else {
        walk_crossings(walks, c, k - 1, x, y) + if walks[k - 1].0 == c {
            crossings(spec_simplify(walk_points(walks[k - 1].1)), x, y)
        } else {
            0nat
        }
    }
}

proof fn lemma_walk_crossings_sum(img: ArgbImage, walks: Seq<(Argb, Seq<Step>)>, c: Argb, k: int, x: int, y: int)
    requires
        traced(img, walks),
        0 <= k <= walks.len(),
        forall|j: int| 0 <= j < walks.len() ==> closes(#[trigger] walks[j].1),
    ensures
        walk_crossings(walks, c, k, x, y) == colour_ray_steps(walks, c, k, x, y),
    decreases k,
{
    if k > 0 {
        let i = k - 1;
        lemma_walk_crossings_sum(img, walks, c, i, x, y);
        assert(starts_walk(img, walks, i));
        assert(closes(walks[i].1));
        lemma_walk_is_rook(img, walks[i].0, taken(walks, i), walks[i].1);
        lemma_reduced_crossings(walk_points(walks[i].1), x, y);
        lemma_walk_crossings(img, walks[i].0, taken(walks, i), walks[i].1, x, y);
    }
}

proof fn lemma_walk_crossings_same(a: Seq<(Argb, Seq<Step>)>, b: Seq<(Argb, Seq<Step>)>, c: Argb, k: int, x: int, y: int)
    requires
        0 <= k <= a.len(),
        k <= b.len(),
        forall|j: int| 0 <= j < k ==> a[j] == b[j],
    ensures
        walk_crossings(a, c, k, x, y) == walk_crossings(b, c, k, x, y),
    decreases k,
{
    if k > 0 {
        lemma_walk_crossings_same(a, b, c, k - 1, x, y);
        assert(a[k - 1] == b[k - 1]);
    }
}

/// A loop of at most two points crosses any ray an even number of times:
/// each of its segments is walked back by the other.
proof fn lemma_short_loop(l: Seq<(i32, i32)>, x: int, y: int)
    requires
        l.len() <= 2,
    ensures
        crossings(l, x, y) % 2 == 0,
{
    reveal_with_fuel(crossings_upto, 3);
    if l.len() == 1 {
        vstd::arithmetic::div_mod::lemma_mod_self_0(1);
        assert(next_of(l, 0) == l[0]);
        assert(!crosses(l[0], l[0], x, y));
    } else if l.len() == 2 {
        vstd::arithmetic::div_mod::lemma_small_mod(1, 2);
        vstd::arithmetic::div_mod::lemma_mod_self_0(2);
        assert(next_of(l, 0) == l[1]);
        assert(next_of(l, 1) == l[0]);
        assert(crosses(l[0], l[1], x, y) == crosses(l[1], l[0], x, y));
    }
}

/// Dropping the loops that reduce to fewer than three points keeps the
/// parity of the crossings of every colour.
proof fn lemma_kept_crossings(walks: Seq<(Argb, Seq<Step>)>, c: Argb, x: int, y: int)
    ensures
        colour_crossings(kept(walks), c, x, y) % 2 == walk_crossings(walks, c, walks.len() as int, x, y) % 2,
    decreases walks.len(),
{
    let n = walks.len() as int;
    if n > 0 {
        let d = walks.drop_last();
        lemma_kept_crossings(d, c, x, y);
        lemma_walk_crossings_same(walks, d, c, n - 1, x, y);
        assert(walks.last() == walks[n - 1]);
        let pts = spec_simplify(walk_points(walks.last().1));
        if pts.len() >= 3 {
            let ks = kept(d).push((walks.last().0, pts));
            assert(kept(walks) == ks);
            assert(ks.drop_last() =~= kept(d));
        } else {
            assert(kept(walks) == kept(d));
            lemma_short_loop(pts, x, y);
        }
    }
}

/// At one pixel: the loops of each visible colour cross the ray from its
/// centre an odd number of times exactly when the pixel has that colour.
proof fn lemma_pixel_parity(img: ArgbImage, walks: Seq<(Argb, Seq<Step>)>, c: Argb, x: int, y: int)
    requires
        traced(img, walks),
        inside(img, x, y),
        c.alpha() != 0,
    ensures
        (colour_crossings(kept(walks), c, x, y) % 2 == 1) == (img.at(x, y) == c),
{
    let n = walks.len() as int;
    law_walks_close(img, walks);
    law_boundary_edges_walked_once(img, walks);
    lemma_kept_crossings(walks, c, x, y);
    lemma_walk_crossings_sum(img, walks, c, n, x, y);
    lemma_colour_ray_steps(img, walks, c, n, x, y);
    lemma_row_parity(img, c, x, y);
}

/// Law: filled by the even-odd rule, the regions traced from an image with
/// merged colours reproduce it. A region paints a pixel exactly when the
/// pixel has the region's colour, every visible pixel's colour has a
/// region, and every region's colour is that of some pixel. (The regions
/// have distinct visible colours, see
/// [`crate::vectorizer::law_arrange_order`] and
/// [`crate::vectorizer::law_regions_visible`], so each visible pixel is
/// painted once, with its own colour, and no transparent pixel is painted.)
pub proof fn law_fill_reproduces_pixels(img: ArgbImage, walks: Seq<(Argb, Seq<Step>)>)
    requires
        traced(img, walks),
    ensures
        forall|i: int, x: int, y: int|
            0 <= i < arrange(kept(walks), true).len() && inside(img, x, y) ==> (#[trigger] fills(
                arrange(kept(walks), true)[i].1,
                x,
                y,
            ) <==> img.at(x, y) == arrange(kept(walks), true)[i].0),
        forall|x: int, y: int|
            inside(img, x, y) && (#[trigger] img.at(x, y)).alpha() != 0 ==> exists|i: int|
                0 <= i < arrange(kept(walks), true).len() && #[trigger] arrange(kept(walks), true)[i].0 == img.at(x, y),
        forall|i: int|
            0 <= i < arrange(kept(walks), true).len() ==> occurs(img, #[trigger] arrange(kept(walks), true)[i].0),
{
    let ks = kept(walks);
    let rs = arrange(ks, true);
    assert(rs == grouped(ks));
    law_regions_visible(img, walks, true);
    assert forall|i: int, x: int, y: int| 0 <= i < rs.len() && inside(img, x, y) implies (#[trigger] fills(
        rs[i].1,
        x,
        y,
    ) <==> img.at(x, y) == rs[i].0) by {
        lemma_grouped_crossings(ks, x, y);
        lemma_pixel_parity(img, walks, rs[i].0, x, y);
    }
    assert forall|x: int, y: int| inside(img, x, y) && (#[trigger] img.at(x, y)).alpha() != 0 implies exists|i: int|
        0 <= i < rs.len() && #[trigger] rs[i].0 == img.at(x, y) by {
        let c = img.at(x, y);
        lemma_grouped_crossings(ks, x, y);
        lemma_pixel_parity(img, walks, c, x, y);
        assert(colour_crossings(ks, c, x, y) > 0);
    }
    law_arrange_order(ks, true);
    lemma_kept_loops(walks);
    assert forall|i: int| 0 <= i < rs.len() implies occurs(img, #[trigger] rs[i].0) by {
        assert(drawn(rs, ks, i, 0));
        let j = choose|j: int| 0 <= j < ks.len() && #[trigger] ks[j] == (rs[i].0, rs[i].1[0]);
        let k = choose|k: int| 0 <= k < walks.len() && #[trigger] ks[j] == (walks[k].0, spec_simplify(walk_points(walks[k].1)));
        assert(starts_walk(img, walks, k));
        let first = step_edge(walks[k].1[0]);
        assert(inside(img, first.0, first.1) && img.at(first.0, first.1) == rs[i].0);
        assert(occurs(img, rs[i].0));
    }
}

/// Law, for the regions that [`crate::vectorizer::vectorize`] returns with
/// merged colours: filled by the even-odd rule, region `i` paints pixel
/// `(x, y)` exactly when the pixel has the region's colour, every visible
/// pixel's colour is the colour of some region, and every region's colour
/// is that of some pixel: one region per visible colour of the image.
pub proof fn law_vectorized_fill(img: ArgbImage, regions: Seq<Region>)
    requires
        exists|walks: Seq<(Argb, Seq<Step>)>| traced(img, walks) && regions_view(regions) == arrange(kept(walks), true),
    ensures
        forall|i: int, x: int, y: int|
            0 <= i < regions.len() && inside(img, x, y) ==> (#[trigger] fills(regions_view(regions)[i].1, x, y)
                <==> img.at(x, y) == regions[i].color),
        forall|x: int, y: int|
            inside(img, x, y) && (#[trigger] img.at(x, y)).alpha() != 0 ==> exists|i: int|
                0 <= i < regions.len() && #[trigger] regions[i].color == img.at(x, y),
        forall|i: int| 0 <= i < regions.len() ==> occurs(img, #[trigger] regions[i].color),
{
    let walks = choose|walks: Seq<(Argb, Seq<Step>)>| traced(img, walks) && regions_view(regions) == arrange(kept(walks), true);
    law_fill_reproduces_pixels(img, walks);
    let rs = regions_view(regions);
    assert forall|i: int| 0 <= i < regions.len() implies #[trigger] rs[i].0 == regions[i].color by {}
    assert forall|i: int, x: int, y: int| 0 <= i < regions.len() && inside(img, x, y) implies (#[trigger] fills(rs[i].1, x, y)
        <==> img.at(x, y) == regions[i].color) by {
        assert(fills(arrange(kept(walks), true)[i].1, x, y) <==> img.at(x, y) == arrange(kept(walks), true)[i].0);
    }
    assert forall|x: int, y: int| inside(img, x, y) && (#[trigger] img.at(x, y)).alpha() != 0 implies exists|i: int|
        0 <= i < regions.len() && #[trigger] regions[i].color == img.at(x, y) by {
        let i = choose|i: int| 0 <= i < arrange(kept(walks), true).len() && #[trigger] arrange(kept(walks), true)[i].0 == img.at(x, y);
        assert(rs[i].0 == regions[i].color);
    }
    assert forall|i: int| 0 <= i < regions.len() implies occurs(img, #[trigger] regions[i].color) by {
        assert(rs[i].0 == regions[i].color);
        assert(occurs(img, arrange(kept(walks), true)[i].0));
    }
}

/// The colour that drawing the regions `rs` in order, each filled by the
/// even-odd rule over a transparent canvas, leaves at pixel `(x, y)`: that of
/// the last region that paints it, or transparent black when none does.
pub open spec fn painted(rs: Seq<(Argb, Seq<Seq<(i32, i32)>>)>, x: int, y: int) -> Argb
    decreases rs.len(),
{
    if rs.len() == 0 {
        Argb(0)
    } else if fills(rs.last().1, x, y) {
        rs.last().0
    } else {
        painted(rs.drop_last(), x, y)
    }
}

proof fn lemma_painted(rs: Seq<(Argb, Seq<Seq<(i32, i32)>>)>, p: Argb, x: int, y: int)
    requires
        forall|i: int| 0 <= i < rs.len() ==> (fills(#[trigger] rs[i].1, x, y) <==> rs[i].0 == p),
    ensures
        painted(rs, x, y) == if exists|i: int| 0 <= i < rs.len() && #[trigger] rs[i].0 == p {
            p
        } else {
            Argb(0)
        },
    decreases rs.len(),
{
    if rs.len() > 0 {
        let d = rs.drop_last();
        assert forall|i: int| 0 <= i < d.len() implies (fills(#[trigger] d[i].1, x, y) <==> d[i].0 == p) by {
            assert(d[i] == rs[i]);
        }
        lemma_painted(d, p, x, y);
        let n = rs.len() - 1;
        assert(rs.last() == rs[n]);
        if exists|i: int| 0 <= i < d.len() && #[trigger] d[i].0 == p {
            let i = choose|i: int| 0 <= i < d.len() && #[trigger] d[i].0 == p;
            assert(rs[i].0 == p);
        }
        if exists|i: int| 0 <= i < rs.len() && #[trigger] rs[i].0 == p {
            let i = choose|i: int| 0 <= i < rs.len() && #[trigger] rs[i].0 == p;
            if i < n {
                assert(d[i].0 == p);
            }
        }
    }
}

/// Law: drawing the regions that [`crate::vectorizer::vectorize`] returns with
/// merged colours, in order, each filled by the even-odd rule over a
/// transparent canvas, gives back every visible pixel of the image and
/// leaves every fully transparent pixel transparent black.
pub proof fn law_vectorized_paint(img: ArgbImage, regions: Seq<Region>)
    requires
        exists|walks: Seq<(Argb, Seq<Step>)>| traced(img, walks) && regions_view(regions) == arrange(kept(walks), true),
    ensures
        forall|x: int, y: int|
            inside(img, x, y) ==> #[trigger] painted(regions_view(regions), x, y) == if img.at(x, y).alpha() != 0 {
                img.at(x, y)
            } else {
                Argb(0)
            },
{
    let walks = choose|walks: Seq<(Argb, Seq<Step>)>| traced(img, walks) && regions_view(regions) == arrange(kept(walks), true);
    law_vectorized_fill(img, regions);
    law_regions_visible(img, walks, true);
    let rs = regions_view(regions);
    assert forall|x: int, y: int| inside(img, x, y) implies #[trigger] painted(rs, x, y) == if img.at(x, y).alpha() != 0 {
        img.at(x, y)
    } else {
        Argb(0)
    } by {
        let p = img.at(x, y);
        assert forall|i: int| 0 <= i < rs.len() implies (fills(#[trigger] rs[i].1, x, y) <==> rs[i].0 == p) by {
            assert(rs[i].0 == regions[i].color);
            assert(fills(rs[i].1, x, y) <==> img.at(x, y) == regions[i].color);
        }
        lemma_painted(rs, p, x, y);
        if p.alpha() != 0 {
            let i = choose|i: int| 0 <= i < regions.len() && #[trigger] regions[i].color == img.at(x, y);
            assert(rs[i].0 == p);
        } else {
            if exists|i: int| 0 <= i < rs.len() && #[trigger] rs[i].0 == p {
                let i = choose|i: int| 0 <= i < rs.len() && #[trigger] rs[i].0 == p;
                assert(arrange(kept(walks), true)[i].0.alpha() != 0);
                assert(false);
            }
        }
    }
}

// ---------------------------------------------------------------------------
// Optimising a loop keeps the pixels it fills
// ---------------------------------------------------------------------------

spec fn bit(b: bool) -> int {
    if b {
        1
    } else {
        0
    }
}

/// The run of the loop from kept point `t` to the next kept point, numbered
/// on around the loop: every point strictly inside it is dropped.
proof fn lemma_kept_run(pts: Seq<(i32, i32)>, keep: spec_fn(int) -> bool, t: int) -> (b: int)
    requires
        pts.len() >= 1,
        0 <= t < select(pts, keep, pts.len() as int).len(),
    ensures
        ({
            let n = pts.len() as int;
            let l = select(pts, keep, n);
            let ix = kept_idx(keep, n);
            let m = l.len() as int;
            &&& 0 <= ix[t] < n
            &&& ix[t] < b <= ix[t] + n
            &&& b == if t + 1 < m { ix[t + 1] } else { ix[0] + n }
            &&& forall|i: int| ix[t] < i < b ==> !keep(#[trigger] (i % n))
            &&& around(pts, ix[t]) == l[t]
            &&& around(pts, b) == l[(t + 1) % m]
        }),
{
    let n = pts.len() as int;
    let l = select(pts, keep, n);
    lemma_kept_idx(pts, keep, n);
    let ix = kept_idx(keep, n);
    let m = l.len() as int;
    let a = ix[t];
    let b = if t + 1 < m {
        ix[t + 1]
    } else {
        ix[0] + n
    };
    let k = (t + 1) % m;
    if t + 1 < m {
        assert(ix[t] < ix[t + 1]);
        vstd::arithmetic::div_mod::lemma_small_mod((t + 1) as nat, m as nat);
    } else {
        vstd::arithmetic::div_mod::lemma_mod_self_0(m);
        assert(ix[0] <= ix[m - 1]) by {
            if m - 1 > 0 {
                assert(ix[0] < ix[m - 1]);
            }
        }
    }
    assert forall|i: int| a < i < b implies !keep(#[trigger] (i % n)) by {
        if i < n {
            vstd::arithmetic::div_mod::lemma_small_mod(i as nat, n as nat);
            assert(!keep(i));
        } else {
            vstd::arithmetic::div_mod::lemma_fundamental_div_mod_converse(i, n, 1, i - n);
            assert(!keep(i - n));
        }
    }
    vstd::arithmetic::div_mod::lemma_small_mod(a as nat, n as nat);
    if t + 1 < m {
        vstd::arithmetic::div_mod::lemma_small_mod(b as nat, n as nat);
    } else {
        vstd::arithmetic::div_mod::lemma_fundamental_div_mod_converse(b, n, 1, ix[0]);
    }
    assert(l[t] == pts[a] && l[k] == pts[ix[k]]);
    b
}

/// Every run of dropped points crosses the ray, in parity, as the segment
/// from the point before it to the point after it.
spec fn runs_agree(pts: Seq<(i32, i32)>, keep: spec_fn(int) -> bool, x: int, y: int) -> bool {
    forall|a: int, b: int|
        0 <= a < b <= a + pts.len() && (forall|i: int| a < i < b ==> !keep(#[trigger] (i % (pts.len() as int))))
            ==> #[trigger] run_crossings(pts, a, b, x, y) % 2 == bit(crosses(around(pts, a), around(pts, b), x, y))
}

#[verifier::spinoff_prover]
proof fn lemma_select_prefix(pts: Seq<(i32, i32)>, keep: spec_fn(int) -> bool, t: int, x: int, y: int)
    requires
        pts.len() >= 1,
        runs_agree(pts, keep, x, y),
        1 <= select(pts, keep, pts.len() as int).len(),
        0 <= t <= select(pts, keep, pts.len() as int).len(),
    ensures
        crossings_upto(select(pts, keep, pts.len() as int), t, x, y) % 2 == run_crossings(
            pts,
            kept_idx(keep, pts.len() as int)[0],
            if t < select(pts, keep, pts.len() as int).len() {
                kept_idx(keep, pts.len() as int)[t]
            } else {
                kept_idx(keep, pts.len() as int)[0] + pts.len()
            },
            x,
            y,
        ) % 2,
    decreases t,
{
    let n = pts.len() as int;
    lemma_kept_idx(pts, keep, n);
    let l = select(pts, keep, n);
    let ix = kept_idx(keep, n);
    let m = l.len() as int;
    if t > 0 {
        lemma_select_prefix(pts, keep, t - 1, x, y);
        let a = ix[t - 1];
        let b = lemma_kept_run(pts, keep, t - 1);
        assert(run_crossings(pts, a, b, x, y) % 2 == bit(crosses(around(pts, a), around(pts, b), x, y)));
        if t - 1 > 0 {
            assert(ix[0] < ix[t - 1]);
        }
        lemma_run_split(pts, ix[0], a, b, x, y);
        assert(next_of(l, t - 1) == l[t % m]);
    }
}

/// Dropping points whose runs agree with the segments that replace them
/// keeps the parity of the crossings of a closed loop.
proof fn lemma_select_crossings(pts: Seq<(i32, i32)>, keep: spec_fn(int) -> bool, x: int, y: int)
    requires
        pts.len() >= 1,
        runs_agree(pts, keep, x, y),
        1 <= select(pts, keep, pts.len() as int).len(),
    ensures
        crossings(select(pts, keep, pts.len() as int), x, y) % 2 == crossings(pts, x, y) % 2,
{
    let n = pts.len() as int;
    lemma_kept_idx(pts, keep, n);
    let ix = kept_idx(keep, n);
    let m = select(pts, keep, n).len() as int;
    lemma_select_prefix(pts, keep, m, x, y);
    let a0 = ix[0];
    lemma_run_split(pts, 0, a0, n, x, y);
    lemma_run_split(pts, a0, n, a0 + n, x, y);
    lemma_run_period(pts, 0, a0, x, y);
    lemma_run_whole(pts, n, x, y);
}

/// A run of points that each repeat the one before crosses the ray as the
/// segment from its start to the point after it.
#[verifier::spinoff_prover]
proof fn lemma_repeat_run(pts: Seq<(i32, i32)>, a: int, b: int, x: int, y: int)
    requires
        pts.len() >= 1,
        0 <= a < b,
        forall|i: int| a < i < b ==> #[trigger] pts[i % (pts.len() as int)] == prev_of(pts, i % (pts.len() as int)),
    ensures
        forall|q: int| a <= q < b ==> #[trigger] around(pts, q) == around(pts, a),
        run_crossings(pts, a, b, x, y) == bit(crosses(around(pts, a), around(pts, b), x, y)),
    decreases b - a,
{
    let n = pts.len() as int;
    if b - 1 > a {
        lemma_repeat_run(pts, a, b - 1, x, y);
        lemma_mod_neighbours(b - 1, n);
        assert(pts[(b - 1) % n] == prev_of(pts, (b - 1) % n));
        assert(around(pts, b - 1) == around(pts, b - 2));
        assert(around(pts, b - 2) == around(pts, a));
        assert(!crosses(around(pts, a), around(pts, a), x, y));
        assert(run_crossings(pts, a, b - 1, x, y) == 0);
        assert(run_crossings(pts, a, b, x, y) == run_crossings(pts, a, b - 1, x, y) + bit(
            crosses(around(pts, b - 1), around(pts, b), x, y),
        ));
    } else {
        assert(run_crossings(pts, a, a, x, y) == 0);
    }
}

/// Runs of repeated points agree with the segments that replace them.
proof fn lemma_dedup_runs(pts: Seq<(i32, i32)>, x: int, y: int)
    requires
        pts.len() >= 1,
    ensures
        runs_agree(pts, |i: int| pts[i] != prev_of(pts, i), x, y),
{
    let n = pts.len() as int;
    let keep = |i: int| pts[i] != prev_of(pts, i);
    assert forall|a: int, b: int|
        0 <= a < b <= a + n && (forall|i: int| a < i < b ==> !keep(#[trigger] (i % n))) implies #[trigger] run_crossings(
        pts,
        a,
        b,
        x,
        y,
    ) % 2 == bit(crosses(around(pts, a), around(pts, b), x, y)) by {
        assert forall|i: int| a < i < b implies #[trigger] pts[i % n] == prev_of(pts, i % n) by {
            assert(!keep(i % n));
        }
        lemma_repeat_run(pts, a, b, x, y);
    }
}

/// Point `i` of the loop, numbered on around the loop, is redundant.
spec fn redundant_at(pts: Seq<(i32, i32)>, i: int) -> bool {
    redundant(pts, i % (pts.len() as int))
}

/// In a loop without repeated neighbours, every step is a real move.
proof fn lemma_step_moves(pts: Seq<(i32, i32)>, q: int)
    requires
        no_adjacent_repeats(pts),
        pts.len() >= 1,
        0 <= q,
    ensures
        around_step(pts, q) != (0int, 0int),
{
    let n = pts.len() as int;
    lemma_mod_neighbours(q, n);
    lemma_mod_neighbours(q + 1, n);
    let k = (q + 1) % n;
    assert(pts[k] != prev_of(pts, k));
    assert(prev_of(pts, k) == pts[q % n]);
}

/// Step `c` of a redundant point's run turns neither left nor right.
proof fn lemma_redundant_step(pts: Seq<(i32, i32)>, c: int)
    requires
        no_adjacent_repeats(pts),
        pts.len() >= 1,
        c >= 1,
        redundant_at(pts, c),
    ensures
        spec_cross(around_step(pts, c - 1), around_step(pts, c)) == 0,
        around_step(pts, c - 1) != (0int, 0int),
        around_step(pts, c) != (0int, 0int),
{
    lemma_around_steps(pts, c);
    lemma_step_moves(pts, c - 1);
    lemma_step_moves(pts, c);
}

/// One more step along a vertical run.
proof fn lemma_vertical_step(p: (i32, i32), q: (i32, i32), r: (i32, i32), d1: (int, int), k: int, x: int, y: int)
    requires
        q.0 == p.0,
        d1.0 == 0,
        d1 != (0int, 0int),
        spec_cross(d1, diff(q, r)) == 0,
        k >= 0,
        k % 2 == bit(p.0 > x && ((p.1 <= y) != (q.1 <= y))),
    ensures
        r.0 == p.0,
        diff(q, r).0 == 0,
        (k + bit(crosses(q, r, x, y))) % 2 == bit(p.0 > x && ((p.1 <= y) != (r.1 <= y))),
{
    let d2 = diff(q, r);
    assert(d2.0 == 0) by (nonlinear_arith)
        requires
            d1.0 == 0,
            d1 != (0int, 0int),
            d1.0 * d2.1 - d1.1 * d2.0 == 0,
    ;
    let b1 = p.0 > x && ((p.1 <= y) != (q.1 <= y));
    let b2 = p.0 > x && ((q.1 <= y) != (r.1 <= y));
    assert(crosses(q, r, x, y) == b2);
    lemma_parity_step(k, b1, b2);
}

proof fn lemma_parity_step(k: int, b1: bool, b2: bool)
    requires
        k >= 0,
        k % 2 == bit(b1),
    ensures
        (k + bit(b2)) % 2 == bit(b1 != b2),
{
}

/// A run of redundant points that starts with a vertical step stays on one
/// vertical line, and crosses the ray, in parity, when exactly one of its
/// ends lies above the pixel's centre.
#[verifier::spinoff_prover]
proof fn lemma_vertical_run(pts: Seq<(i32, i32)>, a: int, c: int, x: int, y: int)
    requires
        no_adjacent_repeats(pts),
        pts.len() >= 1,
        0 <= a < c,
        around_step(pts, a).0 == 0,
        forall|i: int| a < i < c ==> #[trigger] redundant_at(pts, i),
    ensures
        around(pts, c).0 == around(pts, a).0,
        around_step(pts, c - 1).0 == 0,
        run_crossings(pts, a, c, x, y) % 2 == bit(
            around(pts, a).0 > x && ((around(pts, a).1 <= y) != (around(pts, c).1 <= y)),
        ),
    decreases c - a,
{
    let p = around(pts, a);
    let q = around(pts, c - 1);
    let r = around(pts, c);
    assert(around_step(pts, c - 1) == diff(q, r));
    assert(run_crossings(pts, a, c, x, y) == run_crossings(pts, a, c - 1, x, y) + bit(crosses(q, r, x, y)));
    if c > a + 1 {
        lemma_vertical_run(pts, a, c - 1, x, y);
        lemma_redundant_step(pts, c - 1);
        lemma_vertical_step(p, q, r, around_step(pts, c - 2), run_crossings(pts, a, c - 1, x, y) as int, x, y);
    } else {
        assert(run_crossings(pts, a, a, x, y) == 0);
        assert(crosses(q, r, x, y) == (p.0 > x && ((p.1 <= y) != (r.1 <= y))));
    }
}

/// One more step along a run that is not vertical.
proof fn lemma_slanted_step(d0: (int, int), d1: (int, int), d2: (int, int), e: (int, int))
    requires
        d1.0 != 0,
        d2 != (0int, 0int),
        spec_cross(d1, d2) == 0,
        spec_cross(d0, d1) == 0,
        spec_cross(d0, e) == 0,
    ensures
        d2.0 != 0,
        spec_cross(d0, d2) == 0,
        spec_cross(d0, (e.0 + d2.0, e.1 + d2.1)) == 0,
{
    assert(d2.0 != 0) by (nonlinear_arith)
        requires
            d1.0 != 0,
            d2 != (0int, 0int),
            d1.0 * d2.1 - d1.1 * d2.0 == 0,
    ;
    assert(d0.0 * d2.1 - d0.1 * d2.0 == 0) by (nonlinear_arith)
        requires
            d0.0 * d1.1 - d0.1 * d1.0 == 0,
            d1.0 * d2.1 - d1.1 * d2.0 == 0,
            d1.0 != 0,
    ;
    assert(d0.0 * (e.1 + d2.1) - d0.1 * (e.0 + d2.0) == 0) by (nonlinear_arith)
        requires
            d0.0 * e.1 - d0.1 * e.0 == 0,
            d0.0 * d2.1 - d0.1 * d2.0 == 0,
    ;
}

/// A run of redundant points that starts with a step that is not vertical
/// stays on one line through its start, never steps vertically, and does
/// not cross the ray.
#[verifier::spinoff_prover]
#[verifier::rlimit(30)]
proof fn lemma_slanted_run(pts: Seq<(i32, i32)>, a: int, c: int, x: int, y: int)
    requires
        no_adjacent_repeats(pts),
        pts.len() >= 1,
        0 <= a < c,
        around_step(pts, a).0 != 0,
        forall|i: int| a < i < c ==> #[trigger] redundant_at(pts, i),
    ensures
        around_step(pts, c - 1).0 != 0,
        spec_cross(around_step(pts, a), around_step(pts, c - 1)) == 0,
        spec_cross(around_step(pts, a), diff(around(pts, a), around(pts, c))) == 0,
        run_crossings(pts, a, c, x, y) == 0,
    decreases c - a,
{
    let d0 = around_step(pts, a);
    let p = around(pts, a);
    let q = around(pts, c - 1);
    let r = around(pts, c);
    let d2 = around_step(pts, c - 1);
    assert(d2 == diff(q, r));
    assert(run_crossings(pts, a, c, x, y) == run_crossings(pts, a, c - 1, x, y) + bit(crosses(q, r, x, y)));
    if c == a + 1 {
        assert(d0.0 * d0.1 - d0.1 * d0.0 == 0) by (nonlinear_arith);
        assert(run_crossings(pts, a, a, x, y) == 0);
    } else {
        lemma_slanted_run(pts, a, c - 1, x, y);
        lemma_redundant_step(pts, c - 1);
        lemma_slanted_step(d0, around_step(pts, c - 2), d2, diff(p, q));
        assert(diff(p, r) == (diff(p, q).0 + d2.0, diff(p, q).1 + d2.1));
    }
}

/// A run of redundant points in a loop without repeated neighbours agrees
/// with the segment that replaces it.
proof fn lemma_straight_parity(pts: Seq<(i32, i32)>, a: int, b: int, x: int, y: int)
    requires
        no_adjacent_repeats(pts),
        pts.len() >= 1,
        0 <= a < b,
        forall|i: int| a < i < b ==> #[trigger] redundant_at(pts, i),
    ensures
        run_crossings(pts, a, b, x, y) % 2 == bit(crosses(around(pts, a), around(pts, b), x, y)),
{
    let d0 = around_step(pts, a);
    if d0.0 == 0 {
        lemma_vertical_run(pts, a, b, x, y);
    } else {
        lemma_slanted_run(pts, a, b, x, y);
        let e = diff(around(pts, a), around(pts, b));
        if e.0 == 0 {
            assert(e.1 == 0) by (nonlinear_arith)
                requires
                    d0.0 * e.1 - d0.1 * e.0 == 0,
                    d0.0 != 0,
                    e.0 == 0,
            ;
        }
    }
}

/// Runs of redundant points of a loop without repeated neighbours agree
/// with the segments that replace them.
proof fn lemma_flatten_runs(pts: Seq<(i32, i32)>, x: int, y: int)
    requires
        pts.len() >= 1,
        no_adjacent_repeats(pts),
    ensures
        runs_agree(pts, |i: int| !redundant(pts, i), x, y),
{
    let n = pts.len() as int;
    let keep = |i: int| !redundant(pts, i);
    assert forall|a: int, b: int|
        0 <= a < b <= a + n && (forall|i: int| a < i < b ==> !keep(#[trigger] (i % n))) implies #[trigger] run_crossings(
        pts,
        a,
        b,
        x,
        y,
    ) % 2 == bit(crosses(around(pts, a), around(pts, b), x, y)) by {
        assert forall|i: int| a < i < b implies #[trigger] redundant_at(pts, i) by {
            assert(!keep(i % n));
        }
        lemma_straight_parity(pts, a, b, x, y);
    }
}

/// Dropping repeated points keeps the parity of a loop's crossings.
proof fn lemma_dedup_crossings(pts: Seq<(i32, i32)>, x: int, y: int)
    requires
        spec_dedup(pts).len() >= 1,
    ensures
        crossings(spec_dedup(pts), x, y) % 2 == crossings(pts, x, y) % 2,
{
    lemma_select_len(pts, |i: int| pts[i] != prev_of(pts, i), pts.len() as int);
    lemma_dedup_runs(pts, x, y);
    lemma_select_crossings(pts, |i: int| pts[i] != prev_of(pts, i), x, y);
}

proof fn lemma_drop_closing_prefix(pts: Seq<(i32, i32)>, k: int, x: int, y: int)
    requires
        pts.len() > 3,
        0 <= k <= pts.len() - 2,
    ensures
        crossings_upto(pts.drop_last(), k, x, y) == crossings_upto(pts, k, x, y),
    decreases k,
{
    if k > 0 {
        lemma_drop_closing_prefix(pts, k - 1, x, y);
        let n = pts.len() as int;
        vstd::arithmetic::div_mod::lemma_small_mod(k as nat, (n - 1) as nat);
        vstd::arithmetic::div_mod::lemma_small_mod(k as nat, n as nat);
        assert(next_of(pts.drop_last(), k - 1) == next_of(pts, k - 1));
    }
}

/// Dropping a closing point that repeats the first keeps a loop's
/// crossings.
proof fn lemma_drop_closing(pts: Seq<(i32, i32)>, x: int, y: int)
    requires
        pts.len() > 3,
        pts.last() == pts[0],
    ensures
        crossings(pts.drop_last(), x, y) == crossings(pts, x, y),
{
    let n = pts.len() as int;
    let d = pts.drop_last();
    lemma_drop_closing_prefix(pts, n - 2, x, y);
    vstd::arithmetic::div_mod::lemma_small_mod((n - 1) as nat, n as nat);
    vstd::arithmetic::div_mod::lemma_mod_self_0(n);
    vstd::arithmetic::div_mod::lemma_mod_self_0(n - 1);
    assert(next_of(d, n - 2) == pts[0]);
    assert(next_of(pts, n - 2) == pts[n - 1]);
    assert(next_of(pts, n - 1) == pts[0]);
    assert(!crosses(pts[n - 1], pts[0], x, y));
    assert(crossings_upto(pts, n, x, y) == crossings_upto(pts, n - 1, x, y) + bit(crosses(pts[n - 1], pts[0], x, y)));
}

proof fn lemma_trim_crossings(pts: Seq<(i32, i32)>, x: int, y: int)
    ensures
        crossings(spec_trim(pts), x, y) == crossings(pts, x, y),
    decreases pts.len(),
{
    if pts.len() > 3 && pts.last() == pts[0] {
        lemma_drop_closing(pts, x, y);
        lemma_trim_crossings(pts.drop_last(), x, y);
    }
}

/// Flattening a loop without repeated neighbours keeps the parity of its
/// crossings.
proof fn lemma_flatten_crossings(pts: Seq<(i32, i32)>, x: int, y: int)
    requires
        no_adjacent_repeats(pts),
    ensures
        crossings(spec_flatten(pts), x, y) % 2 == crossings(pts, x, y) % 2,
    decreases pts.len(),
{
    if pts.len() > 3 {
        let fp = flatten_pass(pts);
        let out = spec_dedup(fp);
        if !(fp.len() >= pts.len() || out.len() < 3) {
            lemma_select_len(fp, |i: int| fp[i] != prev_of(fp, i), fp.len() as int);
            lemma_flatten_runs(pts, x, y);
            lemma_select_crossings(pts, |i: int| !redundant(pts, i), x, y);
            lemma_dedup_crossings(fp, x, y);
            lemma_dedup_no_repeats(fp);
            lemma_flatten_crossings(out, x, y);
        }
    }
}

/// Law: optimising a loop never changes the pixels it fills: the ray from
/// every pixel centre crosses the optimised loop as often, in parity, as
/// the loop before optimisation.
pub proof fn law_strip_keeps_fill(pts: Seq<(i32, i32)>, x: int, y: int)
    ensures
        crossings(spec_strip(pts), x, y) % 2 == crossings(pts, x, y) % 2,
{
    if pts.len() > 3 {
        let t = spec_trim(pts);
        let d = spec_dedup(t);
        if d.len() >= 3 {
            lemma_trim_crossings(pts, x, y);
            lemma_dedup_crossings(t, x, y);
            if d.len() > 3 {
                lemma_dedup_no_repeats(t);
                lemma_flatten_crossings(d, x, y);
            }
        }
    }
}

proof fn lemma_loops_parity(a: Seq<Seq<(i32, i32)>>, b: Seq<Seq<(i32, i32)>>, x: int, y: int)
    requires
        a.len() == b.len(),
        forall|j: int| 0 <= j < a.len() ==> crossings(#[trigger] a[j], x, y) % 2 == crossings(b[j], x, y) % 2,
    ensures
        loops_crossings(a, x, y) % 2 == loops_crossings(b, x, y) % 2,
    decreases a.len(),
{
    if a.len() > 0 {
        let n = a.len() - 1;
        assert forall|j: int| 0 <= j < n implies crossings(#[trigger] a.drop_last()[j], x, y) % 2 == crossings(
            b.drop_last()[j],
            x,
            y,
        ) % 2 by {
            assert(a.drop_last()[j] == a[j] && b.drop_last()[j] == b[j]);
        }
        lemma_loops_parity(a.drop_last(), b.drop_last(), x, y);
        assert(crossings(a[n], x, y) % 2 == crossings(b[n], x, y) % 2);
    }
}

proof fn lemma_painted_same(
    a: Seq<(Argb, Seq<Seq<(i32, i32)>>)>,
    b: Seq<(Argb, Seq<Seq<(i32, i32)>>)>,
    x: int,
    y: int,
)
    requires
        a.len() == b.len(),
        forall|i: int| 0 <= i < a.len() ==> (#[trigger] a[i]).0 == b[i].0 && (fills(a[i].1, x, y) == fills(b[i].1, x, y)),
    ensures
        painted(a, x, y) == painted(b, x, y),
    decreases a.len(),
{
    if a.len() > 0 {
        let n = a.len() - 1;
        assert forall|i: int| 0 <= i < n implies (#[trigger] a.drop_last()[i]).0 == b.drop_last()[i].0 && (fills(
            a.drop_last()[i].1,
            x,
            y,
        ) == fills(b.drop_last()[i].1, x, y)) by {
            assert(a.drop_last()[i] == a[i] && b.drop_last()[i] == b[i]);
        }
        lemma_painted_same(a.drop_last(), b.drop_last(), x, y);
        assert(a[n].0 == b[n].0);
    }
}

/// Law: optimising regions never changes what they paint. When every region
/// of `after` is the stripped form of the region of `before` at its place
/// (what [`crate::optimizer::optimize`] ensures), each region fills the same
/// pixels as before, and drawing all of them in order gives the same colour
/// at every pixel.
pub proof fn law_optimize_keeps_paint(before: Seq<Region>, after: Seq<Region>)
    requires
        after.len() == before.len(),
        forall|i: int| 0 <= i < before.len() ==> stripped(before[i], #[trigger] after[i]),
    ensures
        forall|i: int, x: int, y: int|
            0 <= i < before.len() ==> (#[trigger] fills(regions_view(after)[i].1, x, y) == fills(
                regions_view(before)[i].1,
                x,
                y,
            )),
        forall|x: int, y: int| #[trigger] painted(regions_view(after), x, y) == painted(regions_view(before), x, y),
{
    let ra = regions_view(after);
    let rb = regions_view(before);
    assert forall|i: int, x: int, y: int| 0 <= i < before.len() implies (#[trigger] fills(ra[i].1, x, y) == fills(
        rb[i].1,
        x,
        y,
    )) by {
        assert(stripped(before[i], after[i]));
        assert(ra[i] == region_view(after[i]) && rb[i] == region_view(before[i]));
        assert forall|j: int| 0 <= j < ra[i].1.len() implies crossings(#[trigger] ra[i].1[j], x, y) % 2 == crossings(
            rb[i].1[j],
            x,
            y,
        ) % 2 by {
            law_strip_keeps_fill(before[i].loops@[j].points@, x, y);
        }
        lemma_loops_parity(ra[i].1, rb[i].1, x, y);
    }
    assert forall|x: int, y: int| #[trigger] painted(ra, x, y) == painted(rb, x, y) by {
        assert forall|i: int| 0 <= i < ra.len() implies (#[trigger] ra[i]).0 == rb[i].0 && (fills(ra[i].1, x, y)
            == fills(rb[i].1, x, y)) by {
            assert(stripped(before[i], after[i]));
            assert(ra[i] == region_view(after[i]) && rb[i] == region_view(before[i]));
            assert(fills(ra[i].1, x, y) == fills(rb[i].1, x, y));
        }
        lemma_painted_same(ra, rb, x, y);
    }
}

} // verus!
