//! Path optimisation applied to traced regions before serialisation:
//! zero-length segments, duplicate points, a closing point that repeats the
//! start and points collinear with their neighbours are removed, so each
//! loop is a minimal polygon. No vertex ever moves.
use vstd::prelude::*;
use crate::vectorizer::{kept_idx, lemma_kept_idx, PathLoop, Region};

verus! {

/// A grid vertex.
pub type Point = (i32, i32);

/// Aggregate statistics for one [`optimize`] run.
#[derive(Clone, Copy, Debug, Default, PartialEq, Eq)]
pub struct OptimizeStats {
    /// Number of loops processed.
    pub loops: usize,
    /// Total control points across all loops before optimization.
    pub points_before: usize,
    /// Total control points across all loops after optimization.
    pub points_after: usize,
}

/// The points of `pts` among its first `k` whose index satisfies `keep`,
/// in order.
pub open spec fn select(pts: Seq<Point>, keep: spec_fn(int) -> bool, k: int) -> Seq<Point>
    decreases k,
{
    if k <= 0 {
        Seq::empty()
    } else if keep(k - 1) {
        select(pts, keep, k - 1).push(pts[k - 1])
    } else {
        select(pts, keep, k - 1)
    }
}

/// Cyclic predecessor and successor.
pub open spec fn prev_of(pts: Seq<Point>, i: int) -> Point {
    pts[(i + pts.len() - 1) % (pts.len() as int)]
}

pub open spec fn next_of(pts: Seq<Point>, i: int) -> Point {
    pts[(i + 1) % (pts.len() as int)]
}

/// Drop trailing points equal to the first while more than three remain.
pub open spec fn spec_trim(pts: Seq<Point>) -> Seq<Point>
    decreases pts.len(),
{
    if pts.len() > 3 && pts.last() == pts[0] {
        spec_trim(pts.drop_last())
    } else {
        pts
    }
}

/// Collapse runs of equal consecutive points (cyclically), keeping the
/// first of each run.
pub open spec fn spec_dedup(pts: Seq<Point>) -> Seq<Point> {
    select(pts, |i: int| pts[i] != prev_of(pts, i), pts.len() as int)
}

/// The 2D cross product of two difference vectors.
pub open spec fn spec_cross(a: (int, int), b: (int, int)) -> int {
    a.0 * b.1 - a.1 * b.0
}

pub open spec fn diff(p: Point, q: Point) -> (int, int) {
    (q.0 - p.0, q.1 - p.1)
}

/// Point `i` is redundant: a zero-length segment on either side, or
/// collinear with both neighbours.
pub open spec fn redundant(pts: Seq<Point>, i: int) -> bool {
    let d1 = diff(prev_of(pts, i), pts[i]);
    let d2 = diff(pts[i], next_of(pts, i));
    (d1.0 == 0 && d1.1 == 0) || (d2.0 == 0 && d2.1 == 0) || spec_cross(d1, d2) == 0
}

/// One flattening pass: every redundant point is dropped at once.
pub open spec fn flatten_pass(pts: Seq<Point>) -> Seq<Point> {
    select(pts, |i: int| !redundant(pts, i), pts.len() as int)
}

/// Flattening passes, each followed by dropping the points equal to their
/// predecessor that it leaves, repeated until a pass drops nothing, the loop
/// has three points or fewer, or a pass would leave fewer than three.
pub open spec fn spec_flatten(pts: Seq<Point>) -> Seq<Point>
    decreases pts.len(),
{
    if pts.len() <= 3 {
        pts
    } else {
        let fp = flatten_pass(pts);
        let out = spec_dedup(fp);
        if fp.len() >= pts.len() || out.len() < 3 {
            pts
        } else {
            proof {
                lemma_select_len(fp, |i: int| fp[i] != prev_of(fp, i), fp.len() as int);
            }
            spec_flatten(out)
        }
    }
}

/// The optimised loop.
pub open spec fn spec_strip(pts: Seq<Point>) -> Seq<Point> {
    if pts.len() <= 3 {
        pts
    } else {
        let d = spec_dedup(spec_trim(pts));
        if d.len() < 3 {
            pts
        } else if d.len() <= 3 {
            d
        } else {
            spec_flatten(d)
        }
    }
}

/// The coordinate differences between cyclic neighbours fit in `i32`.
pub open spec fn neighbour_diffs_fit(pts: Seq<Point>) -> bool {
    forall|i: int|
        0 <= i < pts.len() ==> {
            let p = prev_of(pts, i);
            let q = #[trigger] pts[i];
            &&& i32::MIN <= q.0 - p.0 <= i32::MAX
            &&& i32::MIN <= q.1 - p.1 <= i32::MAX
        }
}

/// Every flattening pass that [`spec_flatten`] runs computes its
/// differences without overflow.
pub open spec fn flatten_fits(pts: Seq<Point>) -> bool
    decreases pts.len(),
{
    if pts.len() <= 3 {
        true
    } else {
        let fp = flatten_pass(pts);
        let out = spec_dedup(fp);
        neighbour_diffs_fit(pts) && (fp.len() >= pts.len() || out.len() < 3 || {
            proof {
                lemma_select_len(fp, |i: int| fp[i] != prev_of(fp, i), fp.len() as int);
            }
            flatten_fits(out)
        })
    }
}

/// `strip_redundant_points` computes its differences without overflow.
pub open spec fn strip_fits(pts: Seq<Point>) -> bool {
    pts.len() <= 3 || {
        let d = spec_dedup(spec_trim(pts));
        d.len() <= 3 || flatten_fits(d)
    }
}

/// Selecting among the first `k` points keeps at most `k` of them.
pub proof fn lemma_select_len(pts: Seq<Point>, keep: spec_fn(int) -> bool, k: int)
    requires
        0 <= k,
    ensures
        select(pts, keep, k).len() <= k,
    decreases k,
{
    if k > 0 {
        lemma_select_len(pts, keep, k - 1);
    }
}

fn same(p: Point, q: Point) -> (r: bool)
    ensures
        r == (p == q),
{
    p.0 == q.0 && p.1 == q.1
}

/// Index of the cyclic predecessor.
pub(crate) fn prev_index(i: usize, n: usize) -> (r: usize)
    requires
        i < n,
    ensures
        r == (i + n - 1) % (n as int),
        r < n,
{
    if i == 0 {
        assert((n - 1) % (n as int) == n - 1) by (nonlinear_arith)
            requires
                n > 0,
        ;
        n - 1
    } else {
        assert((i + n - 1) % (n as int) == i - 1) by (nonlinear_arith)
            requires
                0 < i < n,
        ;
        i - 1
    }
}

/// Index of the cyclic successor.
pub(crate) fn next_index(i: usize, n: usize) -> (r: usize)
    requires
        i < n,
    ensures
        r == (i + 1) % (n as int),
        r < n,
{
    if i + 1 == n {
        assert((i + 1) % (n as int) == 0) by (nonlinear_arith)
            requires
                i + 1 == n,
        ;
        0
    } else {
        assert((i + 1) % (n as int) == i + 1) by (nonlinear_arith)
            requires
                i + 1 < n,
        ;
        i + 1
    }
}

/// 2D cross product (z component), in i64 to avoid overflow.
pub fn cross(a: (i32, i32), b: (i32, i32)) -> (c: i64)
    ensures
        c == spec_cross((a.0 as int, a.1 as int), (b.0 as int, b.1 as int)),
{
    let (a0, a1, b0, b1) = (a.0 as i64, a.1 as i64, b.0 as i64, b.1 as i64);
    assert(-0x3fff_ffff_8000_0000 <= a0 * b1 <= 0x4000_0000_0000_0000) by (nonlinear_arith)
        requires
            -0x8000_0000 <= a0 <= 0x7fff_ffff,
            -0x8000_0000 <= b1 <= 0x7fff_ffff,
    ;
    assert(-0x3fff_ffff_8000_0000 <= a1 * b0 <= 0x4000_0000_0000_0000) by (nonlinear_arith)
        requires
            -0x8000_0000 <= a1 <= 0x7fff_ffff,
            -0x8000_0000 <= b0 <= 0x7fff_ffff,
    ;
    a0 * b1 - a1 * b0
}

fn trim_closing(points: &mut Vec<Point>)
    ensures
        final(points)@ == spec_trim(old(points)@),
{
    while points.len() > 3 && same(points[points.len() - 1], points[0])
        invariant
            spec_trim(points@) == spec_trim(old(points)@),
        decreases points@.len(),
    {
        points.pop();
    }
}

fn copy_points(points: &Vec<Point>) -> (out: Vec<Point>)
    ensures
        out@ == points@,
{
    let n = points.len();
    let mut out: Vec<Point> = Vec::new();
    let mut i: usize = 0;
    while i < n
        invariant
            i <= n,
            n == points@.len(),
            out@ == points@.take(i as int),
        decreases n - i,
    {
        out.push(points[i]);
        proof {
            assert(points@.take(i as int).push(points@[i as int]) =~= points@.take(i + 1));
        }
        i += 1;
    }
    proof {
        assert(points@.take(n as int) =~= points@);
    }
    out
}

fn dedup(points: &Vec<Point>) -> (out: Vec<Point>)
    ensures
        out@ == spec_dedup(points@),
{
    let n = points.len();
    let ghost pts = points@;
    let ghost keep = |i: int| pts[i] != prev_of(pts, i);
    let mut out: Vec<Point> = Vec::new();
    let mut i: usize = 0;
    while i < n
        invariant
            i <= n,
            n == pts.len(),
            pts == points@,
            keep == (|i: int| pts[i] != prev_of(pts, i)),
            out@ == select(pts, keep, i as int),
        decreases n - i,
    {
        let p = points[i];
        let prev = points[prev_index(i, n)];
        if !same(p, prev) {
            out.push(p);
        }
        i += 1;
    }
    out
}

/// One flattening pass; `changed` tells whether a point was dropped.
fn flatten_once(points: &Vec<Point>) -> (res: (Vec<Point>, bool))
    requires
        neighbour_diffs_fit(points@),
    ensures
        res.0@ == flatten_pass(points@),
        res.1 == (res.0@.len() < points@.len()),
{
    let n = points.len();
    let ghost pts = points@;
    let ghost keep = |i: int| !redundant(pts, i);
    let mut out: Vec<Point> = Vec::new();
    let mut changed = false;
    let mut i: usize = 0;
    while i < n
        invariant
            i <= n,
            n == pts.len(),
            pts == points@,
            neighbour_diffs_fit(pts),
            keep == (|i: int| !redundant(pts, i)),
            out@ == select(pts, keep, i as int),
            out@.len() <= i,
            changed == (out@.len() < i),
        decreases n - i,
    {
        let pi = prev_index(i, n);
        let ni = next_index(i, n);
        let prev = points[pi];
        let cur = points[i];
        let next = points[ni];
        assert(pts[i as int] == cur);
        assert(pts[ni as int] == next);
        assert(prev_of(pts, ni as int) == cur) by {
            assert((ni + n - 1) % (n as int) == i as int) by (nonlinear_arith)
                requires
                    ni == (i + 1) % (n as int),
                    i < n,
            ;
        }
        let d1 = (cur.0 - prev.0, cur.1 - prev.1);
        let d2 = (next.0 - cur.0, next.1 - cur.1);
        let zero = (d1.0 == 0 && d1.1 == 0) || (d2.0 == 0 && d2.1 == 0);
        if zero || cross(d1, d2) == 0 {
            changed = true;
        } else {
            out.push(cur);
        }
        i += 1;
    }
    (out, changed)
}

/// Strip redundant control points from one closed loop, flattening it into a
/// minimal simple polygon:
///
/// 1. A trailing point equal to the first point is dropped (the closing
///    segment is implied), while more than three points remain.
/// 2. Duplicate consecutive points (zero-length segments) are dropped,
///    cyclically; if fewer than three would remain, the loop is degenerate
///    and is left untouched.
/// 3. Points that lie on the straight line between their two neighbours
///    are dropped, pass after pass, each pass followed by dropping the
///    duplicate consecutive points it leaves, until a pass drops nothing, at
///    most three points remain, or a pass would leave fewer than three.
///
/// A loop of three points or fewer is left untouched.
pub fn strip_redundant_points(points: &mut Vec<Point>)
    requires
        strip_fits(old(points)@),
    ensures
        final(points)@ == spec_strip(old(points)@),
{
    if points.len() <= 3 {
        return;
    }
    let mut trimmed = copy_points(points);
    trim_closing(&mut trimmed);
    let d = dedup(&trimmed);
    if d.len() < 3 {
        return;
    }
    *points = d;
    if points.len() <= 3 {
        return;
    }
    let ghost d0 = points@;
    loop
        invariant
            spec_flatten(points@) == spec_flatten(d0),
            flatten_fits(points@),
        ensures
            points@ == spec_flatten(d0),
        decreases points@.len(),
    {
        let n = points.len();
        if n <= 3 {
            break;
        }
        let (out, changed) = flatten_once(points);
        if !changed {
            break;
        }
        let next = dedup(&out);
        if next.len() < 3 {
            break;
        }
        proof {
            lemma_select_len(out@, |i: int| out@[i] != prev_of(out@, i), out@.len() as int);
        }
        *points = next;
    }
}

/// Total number of points of a list of loops.
pub open spec fn loop_points(ls: Seq<PathLoop>) -> int
    decreases ls.len(),
{
    if ls.len() == 0 {
        0
    } else {
        loop_points(ls.drop_last()) + ls.last().points@.len()
    }
}

/// Total number of loops of a list of regions.
pub open spec fn region_loops(rs: Seq<Region>) -> int
    decreases rs.len(),
{
    if rs.len() == 0 {
        0
    } else {
        region_loops(rs.drop_last()) + rs.last().loops@.len()
    }
}

/// Total number of points of a list of regions.
pub open spec fn region_points(rs: Seq<Region>) -> int
    decreases rs.len(),
{
    if rs.len() == 0 {
        0
    } else {
        region_points(rs.drop_last()) + loop_points(rs.last().loops@)
    }
}

proof fn lemma_loop_points_nonneg(ls: Seq<PathLoop>)
    ensures
        loop_points(ls) >= 0,
    decreases ls.len(),
{
    if ls.len() > 0 {
        lemma_loop_points_nonneg(ls.drop_last());
    }
}

proof fn lemma_loop_points_mono(ls: Seq<PathLoop>, j: int)
    requires
        0 <= j <= ls.len(),
    ensures
        loop_points(ls.take(j)) <= loop_points(ls),
    decreases ls.len() - j,
{
    if j < ls.len() {
        lemma_loop_points_mono(ls, j + 1);
        assert(ls.take(j + 1).drop_last() =~= ls.take(j));
    } else {
        assert(ls.take(j) =~= ls);
    }
}

/// Prefix sums of loop sizes grow one loop at a time and stay below the
/// total.
proof fn lemma_loop_points_prefix(ls: Seq<PathLoop>, j: int)
    requires
        0 <= j < ls.len(),
    ensures
        loop_points(ls.take(j + 1)) == loop_points(ls.take(j)) + ls[j].points@.len(),
        loop_points(ls.take(j + 1)) <= loop_points(ls),
        0 <= loop_points(ls.take(j)),
{
    assert(ls.take(j + 1).drop_last() =~= ls.take(j));
    lemma_loop_points_mono(ls, j + 1);
    lemma_loop_points_nonneg(ls.take(j));
}

proof fn lemma_region_counts_nonneg(rs: Seq<Region>)
    ensures
        region_loops(rs) >= 0,
        region_points(rs) >= 0,
    decreases rs.len(),
{
    if rs.len() > 0 {
        lemma_region_counts_nonneg(rs.drop_last());
        lemma_loop_points_nonneg(rs.last().loops@);
    }
}

proof fn lemma_region_counts_mono(rs: Seq<Region>, i: int)
    requires
        0 <= i <= rs.len(),
    ensures
        region_loops(rs.take(i)) <= region_loops(rs),
        region_points(rs.take(i)) <= region_points(rs),
    decreases rs.len() - i,
{
    if i < rs.len() {
        lemma_region_counts_mono(rs, i + 1);
        assert(rs.take(i + 1).drop_last() =~= rs.take(i));
        lemma_loop_points_nonneg(rs[i].loops@);
    } else {
        assert(rs.take(i) =~= rs);
    }
}

/// Prefix sums over regions grow one region at a time and stay below the
/// totals.
proof fn lemma_region_counts_prefix(rs: Seq<Region>, i: int)
    requires
        0 <= i < rs.len(),
    ensures
        region_loops(rs.take(i + 1)) == region_loops(rs.take(i)) + rs[i].loops@.len(),
        region_points(rs.take(i + 1)) == region_points(rs.take(i)) + loop_points(rs[i].loops@),
        region_loops(rs.take(i + 1)) <= region_loops(rs),
        region_points(rs.take(i + 1)) <= region_points(rs),
{
    assert(rs.take(i + 1).drop_last() =~= rs.take(i));
    lemma_region_counts_mono(rs, i + 1);
}

proof fn lemma_trim(pts: Seq<Point>)
    ensures
        spec_trim(pts).len() <= pts.len(),
        pts.len() >= 3 ==> spec_trim(pts).len() >= 3,
        spec_trim(pts) == pts.take(spec_trim(pts).len() as int),
    decreases pts.len(),
{
    if pts.len() > 3 && pts.last() == pts[0] {
        lemma_trim(pts.drop_last());
        assert(pts.drop_last().take(spec_trim(pts).len() as int) =~= pts.take(
            spec_trim(pts).len() as int,
        ));
    } else {
        assert(pts.take(pts.len() as int) =~= pts);
    }
}

proof fn lemma_flatten(pts: Seq<Point>)
    ensures
        spec_flatten(pts).len() <= pts.len(),
        pts.len() >= 3 ==> spec_flatten(pts).len() >= 3,
    decreases pts.len(),
{
    if pts.len() > 3 {
        let fp = flatten_pass(pts);
        let out = spec_dedup(fp);
        if !(fp.len() >= pts.len() || out.len() < 3) {
            lemma_select_len(fp, |i: int| fp[i] != prev_of(fp, i), fp.len() as int);
            lemma_flatten(out);
        }
    }
}

/// Law: optimising a loop never adds points, and never takes a loop of at
/// least three points below three.
pub proof fn law_strip_never_grows(pts: Seq<Point>)
    ensures
        spec_strip(pts).len() <= pts.len(),
        pts.len() >= 3 ==> spec_strip(pts).len() >= 3,
{
    if pts.len() > 3 {
        let t = spec_trim(pts);
        lemma_trim(pts);
        lemma_select_len(t, |i: int| t[i] != prev_of(t, i), t.len() as int);
        let d = spec_dedup(t);
        lemma_flatten(d);
    }
}

pub(crate) proof fn lemma_select_contains(pts: Seq<Point>, keep: spec_fn(int) -> bool, k: int)
    requires
        0 <= k <= pts.len(),
    ensures
        forall|m: int|
            0 <= m < select(pts, keep, k).len() ==> pts.contains(#[trigger] select(pts, keep, k)[m]),
    decreases k,
{
    if k > 0 {
        lemma_select_contains(pts, keep, k - 1);
        let prev = select(pts, keep, k - 1);
        assert forall|m: int| 0 <= m < select(pts, keep, k).len() implies pts.contains(
            #[trigger] select(pts, keep, k)[m],
        ) by {
            if m < prev.len() {
                assert(select(pts, keep, k)[m] == prev[m]);
            } else {
                assert(select(pts, keep, k)[m] == pts[k - 1]);
            }
        }
    }
}

pub(crate) proof fn lemma_select_all(pts: Seq<Point>, keep: spec_fn(int) -> bool, k: int)
    requires
        0 <= k <= pts.len(),
        forall|i: int| 0 <= i < k ==> #[trigger] keep(i),
    ensures
        select(pts, keep, k) == pts.take(k),
    decreases k,
{
    if k > 0 {
        lemma_select_all(pts, keep, k - 1);
        assert(pts.take(k - 1).push(pts[k - 1]) =~= pts.take(k));
    } else {
        assert(pts.take(0) =~= Seq::<Point>::empty());
    }
}

proof fn lemma_flatten_contains(pts: Seq<Point>)
    ensures
        forall|m: int|
            0 <= m < spec_flatten(pts).len() ==> pts.contains(#[trigger] spec_flatten(pts)[m]),
    decreases pts.len(),
{
    if pts.len() > 3 {
        let fp = flatten_pass(pts);
        let out = spec_dedup(fp);
        if !(fp.len() >= pts.len() || out.len() < 3) {
            lemma_select_len(fp, |i: int| fp[i] != prev_of(fp, i), fp.len() as int);
            lemma_flatten_contains(out);
            lemma_select_contains(pts, |i: int| !redundant(pts, i), pts.len() as int);
            lemma_select_contains(fp, |i: int| fp[i] != prev_of(fp, i), fp.len() as int);
            assert forall|m: int| 0 <= m < spec_flatten(pts).len() implies pts.contains(
                #[trigger] spec_flatten(pts)[m],
            ) by {
                assert(out.contains(spec_flatten(out)[m]));
                let q = choose|q: int| 0 <= q < out.len() && out[q] == spec_flatten(out)[m];
                assert(fp.contains(out[q]));
                let r = choose|r: int| 0 <= r < fp.len() && fp[r] == out[q];
                assert(pts.contains(fp[r]));
            }
        }
    }
}

/// Law: optimising never moves a vertex: every point of the optimised loop
/// is a point of the loop before optimisation.
pub proof fn law_strip_keeps_vertices(pts: Seq<Point>)
    ensures
        forall|m: int| 0 <= m < spec_strip(pts).len() ==> pts.contains(#[trigger] spec_strip(pts)[m]),
{
    if pts.len() > 3 {
        let t = spec_trim(pts);
        lemma_trim(pts);
        let d = spec_dedup(t);
        lemma_select_contains(t, |i: int| t[i] != prev_of(t, i), t.len() as int);
        lemma_flatten_contains(d);
        assert forall|m: int| 0 <= m < spec_strip(pts).len() implies pts.contains(
            #[trigger] spec_strip(pts)[m],
        ) by {
            let x = spec_strip(pts)[m];
            if d.len() < 3 {
                assert(x == pts[m]);
            } else {
                if d.len() > 3 {
                    assert(d.contains(spec_flatten(d)[m]));
                }
                assert(d.contains(x));
                let q = choose|q: int| 0 <= q < d.len() && d[q] == x;
                assert(t.contains(d[q]));
                let r = choose|r: int| 0 <= r < t.len() && t[r] == x;
                assert(pts[r] == x);
            }
        }
    }
}

/// The indices of a loop kept by [`spec_dedup`].
spec fn dedup_keep(pts: Seq<Point>) -> spec_fn(int) -> bool {
    |i: int| pts[i] != prev_of(pts, i)
}

/// Points strictly between two kept indices repeat the point at the first.
proof fn lemma_dedup_run(pts: Seq<Point>, a: int, b: int)
    requires
        0 <= a < b <= pts.len(),
        forall|q: int| a < q < b ==> !(#[trigger] dedup_keep(pts)(q)),
    ensures
        forall|q: int| a <= q < b ==> #[trigger] pts[q] == pts[a],
    decreases b - a,
{
    if b - 1 > a {
        lemma_dedup_run(pts, a, b - 1);
        let n = pts.len() as int;
        assert(!dedup_keep(pts)(b - 1));
        vstd::arithmetic::div_mod::lemma_small_mod((b - 2) as nat, n as nat);
        assert((b - 1 + n - 1) % n == b - 2) by {
            vstd::arithmetic::div_mod::lemma_fundamental_div_mod_converse(b - 1 + n - 1, n, 1, b - 2);
        }
        assert(pts[b - 1] == pts[b - 2]);
    }
}

/// Deduplication leaves a loop in which no point equals its predecessor,
/// unless it leaves at most one point.
pub(crate) proof fn lemma_dedup_no_repeats(pts: Seq<Point>)
    requires
        spec_dedup(pts).len() >= 2,
    ensures
        no_adjacent_repeats(spec_dedup(pts)),
{
    let n = pts.len() as int;
    let keep = dedup_keep(pts);
    assert(spec_dedup(pts) == select(pts, keep, n));
    lemma_kept_idx(pts, keep, n);
    let ix = kept_idx(keep, n);
    let l = spec_dedup(pts);
    let m = l.len() as int;
    let last = ix[m - 1];
    // From the last kept point to the end, and round to the first kept one,
    // every point repeats the last kept point.
    lemma_dedup_run(pts, last, n);
    assert forall|q: int| 0 <= q < ix[0] implies #[trigger] pts[q] == pts[last] by {
        if q > 0 {
            lemma_dedup_run(pts, 0, ix[0]);
        }
        assert(!keep(0));
        vstd::arithmetic::div_mod::lemma_fundamental_div_mod_converse(n - 1, n, 0, n - 1);
        assert(pts[0] == pts[n - 1]);
        assert(pts[q] == pts[0]);
    }
    assert(prev_of(pts, ix[0]) == pts[last]) by {
        if ix[0] > 0 {
            vstd::arithmetic::div_mod::lemma_fundamental_div_mod_converse(ix[0] + n - 1, n, 1, ix[0] - 1);
        } else {
            vstd::arithmetic::div_mod::lemma_fundamental_div_mod_converse(n - 1, n, 0, n - 1);
        }
    }
    assert forall|t: int| 0 <= t < m implies #[trigger] l[t] != prev_of(l, t) by {
        if t == 0 {
            vstd::arithmetic::div_mod::lemma_fundamental_div_mod_converse(m - 1, m, 0, m - 1);
            assert(prev_of(l, 0) == l[m - 1]);
            assert(ix[0] < last);
            assert(keep(ix[0]));
        } else {
            vstd::arithmetic::div_mod::lemma_fundamental_div_mod_converse(t + m - 1, m, 1, t - 1);
            assert(prev_of(l, t) == l[t - 1]);
            let (a, b) = (ix[t - 1], ix[t]);
            assert(a < b);
            lemma_dedup_run(pts, a, b);
            assert(keep(b));
            vstd::arithmetic::div_mod::lemma_fundamental_div_mod_converse(b + n - 1, n, 1, b - 1);
            assert(prev_of(pts, b) == pts[b - 1]);
        }
    }
}

/// Flattening stops at a loop that it leaves as it is: flattening again
/// changes nothing. When it starts from a loop with no point equal to its
/// predecessor, it ends at one too.
proof fn lemma_flatten_fixpoint(pts: Seq<Point>)
    ensures
        spec_flatten(spec_flatten(pts)) == spec_flatten(pts),
        no_adjacent_repeats(pts) ==> no_adjacent_repeats(spec_flatten(pts)),
    decreases pts.len(),
{
    if pts.len() > 3 {
        let fp = flatten_pass(pts);
        let out = spec_dedup(fp);
        if !(fp.len() >= pts.len() || out.len() < 3) {
            lemma_select_len(fp, |i: int| fp[i] != prev_of(fp, i), fp.len() as int);
            lemma_dedup_no_repeats(fp);
            lemma_flatten_fixpoint(out);
        }
    }
}

/// No point of the closed loop equals the point before it, the closing
/// neighbour included.
pub open spec fn no_adjacent_repeats(pts: Seq<Point>) -> bool {
    forall|i: int| 0 <= i < pts.len() ==> #[trigger] pts[i] != prev_of(pts, i)
}

/// A loop with no point equal to its predecessor is its own trimmed and
/// deduplicated form.
proof fn lemma_clean_loop(r: Seq<Point>)
    requires
        no_adjacent_repeats(r),
        r.len() > 3,
    ensures
        spec_dedup(spec_trim(r)) == r,
{
    let n = r.len() as int;
    assert(r.last() != r[0]) by {
        assert(r[0] != prev_of(r, 0));
        vstd::arithmetic::div_mod::lemma_fundamental_div_mod_converse(n - 1, n, 0, n - 1);
    }
    assert(spec_trim(r) == r);
    lemma_select_all(r, |i: int| r[i] != prev_of(r, i), n);
    assert(r.take(n) =~= r);
}

/// Law: unless optimising leaves a loop untouched (three points or fewer,
/// or fewer than three points once duplicates are dropped), no point of
/// the optimised loop equals the point before it.
pub proof fn law_strip_no_repeats(pts: Seq<Point>)
    requires
        pts.len() > 3,
        spec_dedup(spec_trim(pts)).len() >= 3,
    ensures
        no_adjacent_repeats(spec_strip(pts)),
{
    let d = spec_dedup(spec_trim(pts));
    lemma_dedup_no_repeats(spec_trim(pts));
    lemma_flatten_fixpoint(d);
}

/// Law: optimising is idempotent: optimising the result again changes
/// nothing.
pub proof fn law_strip_idempotent(pts: Seq<Point>)
    ensures
        spec_strip(spec_strip(pts)) == spec_strip(pts),
{
    let r = spec_strip(pts);
    if pts.len() > 3 {
        let d = spec_dedup(spec_trim(pts));
        if d.len() >= 3 {
            law_strip_no_repeats(pts);
            law_strip_never_grows(pts);
            lemma_flatten_fixpoint(d);
            if r.len() > 3 {
                lemma_clean_loop(r);
                if d.len() <= 3 {
                    assert(r == d);
                    assert(false);
                }
                assert(r == spec_flatten(d));
            }
        }
    }
}

/// `after` is `before` with every loop optimised.
pub open spec fn stripped(before: Region, after: Region) -> bool {
    &&& after.color == before.color
    &&& after.loops@.len() == before.loops@.len()
    &&& forall|j: int|
        0 <= j < before.loops@.len() ==> #[trigger] after.loops@[j].points@ == spec_strip(
            before.loops@[j].points@,
        )
}

/// Every loop can be optimised without overflow.
pub open spec fn optimizable(rs: Seq<Region>) -> bool {
    forall|i: int, j: int|
        0 <= i < rs.len() && 0 <= j < rs[i].loops@.len() ==> strip_fits(
            #[trigger] rs[i].loops@[j].points@,
        )
}

/// No point of the loop has a negative coordinate.
pub open spec fn in_first_quadrant(pts: Seq<Point>) -> bool {
    forall|i: int| 0 <= i < pts.len() ==> (#[trigger] pts[i]).0 >= 0 && pts[i].1 >= 0
}

/// No point of any loop of the regions has a negative coordinate.
pub open spec fn regions_in_first_quadrant(rs: Seq<Region>) -> bool {
    forall|i: int, j: int|
        0 <= i < rs.len() && 0 <= j < rs[i].loops@.len() ==> in_first_quadrant(
            #[trigger] rs[i].loops@[j].points@,
        )
}

pub(crate) proof fn lemma_quadrant_subset(pts: Seq<Point>, sub: Seq<Point>)
    requires
        in_first_quadrant(pts),
        forall|m: int| 0 <= m < sub.len() ==> pts.contains(#[trigger] sub[m]),
    ensures
        in_first_quadrant(sub),
{
    assert forall|m: int| 0 <= m < sub.len() implies (#[trigger] sub[m]).0 >= 0 && sub[m].1 >= 0 by {
        assert(pts.contains(sub[m]));
        let q = choose|q: int| 0 <= q < pts.len() && pts[q] == sub[m];
    }
}

proof fn lemma_quadrant_diffs(pts: Seq<Point>)
    requires
        in_first_quadrant(pts),
    ensures
        neighbour_diffs_fit(pts),
{
    assert forall|i: int| 0 <= i < pts.len() implies {
        let p = prev_of(pts, i);
        let q = #[trigger] pts[i];
        &&& i32::MIN <= q.0 - p.0 <= i32::MAX
        &&& i32::MIN <= q.1 - p.1 <= i32::MAX
    } by {
        let n = pts.len() as int;
        vstd::arithmetic::div_mod::lemma_mod_bound(i + n - 1, n);
        let k = (i + n - 1) % n;
        assert(pts[k].0 >= 0 && pts[k].1 >= 0);
    }
}

proof fn lemma_quadrant_flatten_fits(pts: Seq<Point>)
    requires
        in_first_quadrant(pts),
    ensures
        flatten_fits(pts),
    decreases pts.len(),
{
    if pts.len() > 3 {
        lemma_quadrant_diffs(pts);
        let fp = flatten_pass(pts);
        let out = spec_dedup(fp);
        if !(fp.len() >= pts.len() || out.len() < 3) {
            lemma_select_len(fp, |i: int| fp[i] != prev_of(fp, i), fp.len() as int);
            lemma_select_contains(pts, |i: int| !redundant(pts, i), pts.len() as int);
            lemma_quadrant_subset(pts, fp);
            lemma_select_contains(fp, |i: int| fp[i] != prev_of(fp, i), fp.len() as int);
            lemma_quadrant_subset(fp, out);
            lemma_quadrant_flatten_fits(out);
        }
    }
}

/// A loop with no negative coordinate is optimised without overflow.
pub proof fn lemma_quadrant_fits(pts: Seq<Point>)
    requires
        in_first_quadrant(pts),
    ensures
        strip_fits(pts),
{
    if pts.len() > 3 {
        let t = spec_trim(pts);
        lemma_trim(pts);
        assert forall|m: int| 0 <= m < t.len() implies pts.contains(#[trigger] t[m]) by {
            assert(t[m] == pts[m]);
        }
        lemma_quadrant_subset(pts, t);
        let d = spec_dedup(t);
        lemma_select_contains(t, |i: int| t[i] != prev_of(t, i), t.len() as int);
        lemma_quadrant_subset(t, d);
        lemma_quadrant_flatten_fits(d);
    }
}

/// Regions with no negative coordinate can all be optimised without
/// overflow.
pub proof fn lemma_regions_quadrant_optimizable(rs: Seq<Region>)
    requires
        regions_in_first_quadrant(rs),
    ensures
        optimizable(rs),
{
    assert forall|i: int, j: int| 0 <= i < rs.len() && 0 <= j < rs[i].loops@.len() implies strip_fits(
        #[trigger] rs[i].loops@[j].points@,
    ) by {
        lemma_quadrant_fits(rs[i].loops@[j].points@);
    }
}

/// Can [`optimize`] run on `regions` with its counts in machine integers:
/// no point has a negative coordinate, and the numbers of loops and of
/// points fit in `usize`?
pub fn is_optimizable(regions: &[Region]) -> (b: bool)
    ensures
        b == (regions_in_first_quadrant(regions@) && region_loops(regions@) <= usize::MAX && region_points(
            regions@,
        ) <= usize::MAX),
        b ==> optimizable(regions@),
{
    let ghost rs = regions@;
    let n = regions.len();
    let mut loops: usize = 0;
    let mut points: usize = 0;
    let mut i: usize = 0;
    while i < n
        invariant
            i <= n,
            n == rs.len(),
            rs == regions@,
            loops == region_loops(rs.take(i as int)),
            points == region_points(rs.take(i as int)),
            forall|a: int, c: int|
                0 <= a < i && 0 <= c < rs[a].loops@.len() ==> in_first_quadrant(#[trigger] rs[a].loops@[c].points@),
        decreases n - i,
    {
        proof {
            lemma_region_counts_prefix(rs, i as int);
        }
        let r = &regions[i];
        let nl = r.loops.len();
        if loops > usize::MAX - nl {
            return false;
        }
        loops = loops + nl;
        let ghost ls = r.loops@;
        let mut j: usize = 0;
        let mut here: usize = 0;
        while j < nl
            invariant
                j <= nl,
                nl == ls.len(),
                ls == rs[i as int].loops@,
                i < n,
                n == rs.len(),
                rs == regions@,
                r == regions@[i as int],
                points == region_points(rs.take(i as int)),
                here == loop_points(ls.take(j as int)),
                points + here <= usize::MAX,
                region_points(rs.take(i as int + 1)) == region_points(rs.take(i as int)) + loop_points(ls),
                region_points(rs.take(i as int + 1)) <= region_points(rs),
                forall|c: int| 0 <= c < j ==> in_first_quadrant(#[trigger] ls[c].points@),
            decreases nl - j,
        {
            proof {
                lemma_loop_points_prefix(ls, j as int);
            }
            let pts = &r.loops[j].points;
            let np = pts.len();
            if points > usize::MAX - here || points + here > usize::MAX - np {
                return false;
            }
            here = here + np;
            let mut k: usize = 0;
            while k < np
                invariant
                    k <= np,
                    np == pts@.len(),
                    j < ls.len(),
                    i < rs.len(),
                    rs == regions@,
                    ls == rs[i as int].loops@,
                    pts@ == ls[j as int].points@,
                    forall|q: int| 0 <= q < k ==> (#[trigger] pts@[q]).0 >= 0 && pts@[q].1 >= 0,
                decreases np - k,
            {
                if pts[k].0 < 0 || pts[k].1 < 0 {
                    proof {
                        assert(!in_first_quadrant(rs[i as int].loops@[j as int].points@));
                        assert(!regions_in_first_quadrant(rs));
                    }
                    return false;
                }
                k += 1;
            }
            j += 1;
        }
        proof {
            assert(ls.take(nl as int) =~= ls);
        }
        points = points + here;
        i += 1;
    }
    proof {
        assert(rs.take(n as int) =~= rs);
        lemma_regions_quadrant_optimizable(rs);
    }
    true
}

/// Run the optimisation pass over every loop of every region, and report
/// how many loops there were and how many control points they had before
/// and after.
pub fn optimize(regions: &mut [Region]) -> (stats: OptimizeStats)
    requires
        optimizable(old(regions)@),
        region_loops(old(regions)@) <= usize::MAX,
        region_points(old(regions)@) <= usize::MAX,
    ensures
        final(regions)@.len() == old(regions)@.len(),
        forall|i: int|
            0 <= i < old(regions)@.len() ==> stripped(old(regions)@[i], #[trigger] final(regions)@[i]),
        stats.loops == region_loops(old(regions)@),
        stats.points_before == region_points(old(regions)@),
        stats.points_after == region_points(final(regions)@),
{
    let ghost start = regions@;
    let mut stats = OptimizeStats { loops: 0, points_before: 0, points_after: 0 };
    let mut i: usize = 0;
    while i < regions.len()
        invariant
            i <= regions@.len(),
            regions@.len() == start.len(),
            optimizable(start),
            region_loops(start) <= usize::MAX,
            region_points(start) <= usize::MAX,
            forall|k: int| 0 <= k < i ==> stripped(start[k], #[trigger] regions@[k]),
            forall|k: int| i <= k < start.len() ==> #[trigger] regions@[k] == start[k],
            stats.loops == region_loops(start.take(i as int)),
            stats.points_before == region_points(start.take(i as int)),
            stats.points_after == region_points(regions@.take(i as int)),
            stats.points_after <= stats.points_before,
        decreases start.len() - i,
    {
        proof {
            lemma_region_counts_prefix(start, i as int);
        }
        let ghost before = regions@[i as int];
        let ghost done = regions@.take(i as int);
        let mut loops: Vec<PathLoop> = Vec::new();
        std::mem::swap(&mut loops, &mut regions[i].loops);
        let mut j: usize = 0;
        let ghost loops0 = loops@;
        assert(loops0 == before.loops@);
        while j < loops.len()
            invariant
                j <= loops@.len(),
                loops@.len() == loops0.len(),
                loops0 == before.loops@,
                before == start[i as int],
                optimizable(start),
                i < start.len(),
                forall|k: int| 0 <= k < j ==> #[trigger] loops@[k].points@ == spec_strip(loops0[k].points@),
                forall|k: int| j <= k < loops0.len() ==> #[trigger] loops@[k] == loops0[k],
                stats.loops == region_loops(start.take(i as int)) + j,
                stats.points_before == region_points(start.take(i as int)) + loop_points(loops0.take(j as int)),
                stats.points_after == region_points(done) + loop_points(loops@.take(j as int)),
                stats.points_after <= stats.points_before,
                region_loops(start.take(i as int)) + loops0.len() <= usize::MAX,
                region_points(start.take(i as int)) + loop_points(loops0) <= usize::MAX,
            decreases loops0.len() - j,
        {
            proof {
                lemma_loop_points_prefix(loops0, j as int);
            }
            let ghost lt = loops@.take(j as int);
            let mut pts: Vec<Point> = Vec::new();
            std::mem::swap(&mut pts, &mut loops[j].points);
            assert(strip_fits(start[i as int].loops@[j as int].points@));
            stats.loops += 1;
            stats.points_before += pts.len();
            strip_redundant_points(&mut pts);
            proof {
                law_strip_never_grows(loops0[j as int].points@);
            }
            stats.points_after += pts.len();
            std::mem::swap(&mut pts, &mut loops[j].points);
            proof {
                assert(loops@.take(j as int) =~= lt);
                lemma_loop_points_prefix(loops@, j as int);
            }
            j += 1;
        }
        assert(loops@.take(loops@.len() as int) =~= loops@);
        assert(loops0.take(loops0.len() as int) =~= loops0);
        std::mem::swap(&mut loops, &mut regions[i].loops);
        proof {
            lemma_region_counts_prefix(regions@, i as int);
            assert(regions@.take(i as int) =~= done);
        }
        i += 1;
    }
    assert(start.take(start.len() as int) =~= start);
    assert(regions@.take(regions@.len() as int) =~= regions@);
    stats
}

proof fn lemma_select_full(pts: Seq<Point>, keep: spec_fn(int) -> bool, k: int)
    requires
        0 <= k <= pts.len(),
        select(pts, keep, k).len() >= k,
    ensures
        forall|i: int| 0 <= i < k ==> #[trigger] keep(i),
    decreases k,
{
    if k > 0 {
        lemma_select_len(pts, keep, k - 1);
        lemma_select_full(pts, keep, k - 1);
    }
}

proof fn lemma_flatten_minimal(pts: Seq<Point>)
    ensures
        ({
            let r = spec_flatten(pts);
            r.len() <= 3 || spec_dedup(flatten_pass(r)).len() < 3 || forall|i: int| 0 <= i < r.len() ==> !redundant(r, i)
        }),
    decreases pts.len(),
{
    if pts.len() > 3 {
        let out = flatten_pass(pts);
        let keep = |i: int| !redundant(pts, i);
        assert(out == select(pts, keep, pts.len() as int));
        if out.len() >= pts.len() {
            lemma_select_full(pts, keep, pts.len() as int);
            assert(spec_flatten(pts) == pts);
            assert forall|i: int| 0 <= i < pts.len() implies !redundant(pts, i) by {
                assert(keep(i));
            }
        } else if spec_dedup(out).len() < 3 {
            assert(spec_flatten(pts) == pts);
        } else {
            lemma_select_len(out, |i: int| out[i] != prev_of(out, i), out.len() as int);
            lemma_flatten_minimal(spec_dedup(out));
        }
    }
}

/// Law: an optimised loop is minimal. Unless the loop is left as it was
/// (three points or fewer, or fewer than three distinct neighbours), no
/// point of it is redundant, or dropping its redundant points, and then the
/// repeated neighbours that leaves, would leave fewer than three.
pub proof fn law_strip_minimal(pts: Seq<Point>)
    ensures
        ({
            let r = spec_strip(pts);
            ||| r.len() <= 3
            ||| spec_dedup(spec_trim(pts)).len() < 3
            ||| spec_dedup(flatten_pass(r)).len() < 3
            ||| forall|i: int| 0 <= i < r.len() ==> !redundant(r, i)
        }),
{
    if pts.len() > 3 {
        let d = spec_dedup(spec_trim(pts));
        if d.len() > 3 {
            lemma_flatten_minimal(d);
        }
    }
}

} // verus!
