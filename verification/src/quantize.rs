//! Colour quantization: merge near-duplicate colours before vectorization.
//!
//! Lossy inputs carry compression noise: a flat region arrives as dozens of
//! subtly different colours, each of which would become a region of its own.
//! [`quantize_with`] collapses every cluster of colours that are close to a
//! representative into that representative.
//!
//! Greedy clustering: distinct colours are visited in order of frequency,
//! most frequent first, lower colour value first among equals, so the
//! dominant shade of each noise cloud becomes its cluster's representative.
//! Each colour joins the first representative that is close to it, or
//! starts a cluster of its own. Representatives are indexed by a grid over
//! RGB space whose cells span `cell` units per channel; a colour is only
//! compared with the representatives in its own and the adjacent cells,
//! cells in row-major order and, within a cell, the earlier representative
//! first.
use vstd::prelude::*;
use std::collections::HashMap;
use crate::xbrz_engine::{Argb, ArgbImage};

verus! {

broadcast use vstd::std_specs::hash::group_hash_axioms;

/// The number of pixels of colour `c`.
pub open spec fn occurrences(ps: Seq<Argb>, c: Argb) -> nat
    decreases ps.len(),
{
    if ps.len() == 0 {
        0
    } else {
        occurrences(ps.drop_last(), c) + if ps.last() == c {
            1nat
        } else {
            0nat
        }
    }
}

/// Colour `a` is visited before colour `b`: it is more frequent, or as
/// frequent and of lower value.
pub open spec fn ranks_before(ps: Seq<Argb>, a: Argb, b: Argb) -> bool {
    occurrences(ps, a) > occurrences(ps, b) || (occurrences(ps, a) == occurrences(ps, b) && a.0 < b.0)
}

/// The grid cell of colour `c`: its red, green and blue channels divided by
/// `cell`.
pub open spec fn cell_of(cell: u32, c: Argb) -> (int, int, int) {
    ((c.red() / cell) as int, (c.green() / cell) as int, (c.blue() / cell) as int)
}

pub open spec fn adjacent(a: int, b: int) -> bool {
    -1 <= a - b <= 1
}

/// The cells of `a` and `b` are the same or adjacent, diagonals included.
pub open spec fn near(cell: u32, a: Argb, b: Argb) -> bool {
    let ka = cell_of(cell, a);
    let kb = cell_of(cell, b);
    adjacent(ka.0, kb.0) && adjacent(ka.1, kb.1) && adjacent(ka.2, kb.2)
}

/// Row-major order of cells.
pub open spec fn lex_lt(k1: (int, int, int), k2: (int, int, int)) -> bool {
    k1.0 < k2.0 || (k1.0 == k2.0 && (k1.1 < k2.1 || (k1.1 == k2.1 && k1.2 < k2.2)))
}

/// Among the representatives near a colour, `a` is compared before `b`: its
/// cell comes first, or it shares the cell and became a representative
/// first.
pub open spec fn searched_before(ps: Seq<Argb>, cell: u32, a: Argb, b: Argb) -> bool {
    lex_lt(cell_of(cell, a), cell_of(cell, b)) || (cell_of(cell, a) == cell_of(cell, b) && ranks_before(ps, a, b))
}

/// Colour `c` goes to `m[c]` as the greedy clustering decides, given the
/// answers of `close`: either `m[c]` is a representative visited before `c`,
/// near it and close to it, and every representative compared before it
/// was answered not close; or `c` is a representative itself, and every
/// earlier representative near it was answered not close.
pub open spec fn assigned<F: Fn(Argb, Argb) -> bool>(
    ps: Seq<Argb>,
    cell: u32,
    close: F,
    m: Map<Argb, Argb>,
    c: Argb,
) -> bool {
    let r = m[c];
    &&& m.contains_key(c)
    &&& r == c || {
        &&& ps.contains(r)
        &&& m.contains_key(r)
        &&& m[r] == r
        &&& ranks_before(ps, r, c)
        &&& near(cell, c, r)
        &&& call_ensures(close, (c, r), true)
    }
    &&& forall|q: Argb|
        #![trigger ps.contains(q), m[q]]
        ps.contains(q) && m[q] == q && ranks_before(ps, q, c) && near(cell, c, q) && (r == c
            || searched_before(ps, cell, q, r)) ==> call_ensures(close, (c, q), false)
}

/// `m` assigns every colour of `ps` as the greedy clustering does.
pub open spec fn clustered<F: Fn(Argb, Argb) -> bool>(ps: Seq<Argb>, cell: u32, close: F, m: Map<Argb, Argb>) -> bool {
    forall|c: Argb| #[trigger] ps.contains(c) ==> assigned(ps, cell, close, m, c)
}

/// Pairs in std's lexicographic order.
pub open spec fn pair_le(a: (u64, u32), b: (u64, u32)) -> bool {
    a.0 < b.0 || (a.0 == b.0 && a.1 <= b.1)
}

/// `slice::sort_unstable` on pairs of integers, which std orders
/// lexicographically: the result holds the same pairs, in ascending order.
#[verifier::external_body]
fn sort_pairs(v: &mut Vec<(u64, u32)>)
    ensures
        final(v)@.to_multiset() == old(v)@.to_multiset(),
        forall|i: int, j: int| 0 <= i < j < final(v)@.len() ==> pair_le(final(v)@[i], final(v)@[j]),
{
    v.sort_unstable();
}

/// A pixel-for-pixel copy of `img`.
fn copy_image(img: &ArgbImage) -> (out: ArgbImage)
    requires
        img.wf(),
    ensures
        out.width == img.width,
        out.height == img.height,
        out.pixels@ == img.pixels@,
        out.wf(),
{
    let n = img.pixels.len();
    let mut pixels: Vec<Argb> = Vec::new();
    let mut i: usize = 0;
    while i < n
        invariant
            i <= n,
            n == img.pixels@.len(),
            pixels@ == img.pixels@.take(i as int),
        decreases n - i,
    {
        pixels.push(img.pixels[i]);
        proof {
            assert(img.pixels@.take(i as int).push(img.pixels@[i as int]) =~= img.pixels@.take(i + 1));
        }
        i += 1;
    }
    proof {
        assert(img.pixels@.take(n as int) =~= img.pixels@);
    }
    ArgbImage { width: img.width, height: img.height, pixels }
}

proof fn lemma_occurrences_bound(ps: Seq<Argb>, c: Argb)
    ensures
        occurrences(ps, c) <= ps.len(),
        ps.contains(c) <==> occurrences(ps, c) > 0,
    decreases ps.len(),
{
    if ps.len() > 0 {
        let d = ps.drop_last();
        lemma_occurrences_bound(d, c);
        if ps.contains(c) && ps.last() != c {
            let i = choose|i: int| 0 <= i < ps.len() && ps[i] == c;
            assert(d[i] == c);
        }
        if d.contains(c) {
            let i = choose|i: int| 0 <= i < d.len() && d[i] == c;
            assert(ps[i] == c);
        }
        if ps.last() == c {
            assert(ps[ps.len() - 1] == c);
        }
    }
}

/// Count the pixels of every colour; the distinct colours come back in
/// order of first appearance.
fn count_colours(pixels: &Vec<Argb>) -> (res: (HashMap<u32, usize>, Vec<Argb>))
    ensures
        forall|c: Argb| #[trigger] res.1@.contains(c) <==> pixels@.contains(c),
        res.1@.no_duplicates(),
        forall|c: Argb| #[trigger] pixels@.contains(c) ==> res.0@.contains_key(c.0) && res.0@[c.0] == occurrences(pixels@, c),
{
    let n = pixels.len();
    let mut counts: HashMap<u32, usize> = HashMap::new();
    let mut distinct: Vec<Argb> = Vec::new();
    let mut i: usize = 0;
    while i < n
        invariant
            i <= n,
            n == pixels@.len(),
            forall|c: Argb| #[trigger] distinct@.contains(c) <==> pixels@.take(i as int).contains(c),
            distinct@.no_duplicates(),
            forall|v: u32| #[trigger] counts@.contains_key(v) <==> pixels@.take(i as int).contains(Argb(v)),
            forall|v: u32| #[trigger] counts@.contains_key(v) ==> counts@[v] == occurrences(pixels@.take(i as int), Argb(v)),
        decreases n - i,
    {
        let p = pixels[i];
        let ghost pre = pixels@.take(i as int);
        let ghost post = pixels@.take(i + 1);
        proof {
            assert(post.drop_last() =~= pre);
            assert(post.last() == p);
            assert forall|c: Argb| #[trigger] post.contains(c) <==> pre.contains(c) || c == p by {
                if post.contains(c) && c != p {
                    let j = choose|j: int| 0 <= j < post.len() && post[j] == c;
                    assert(pre[j] == c);
                }
                if pre.contains(c) {
                    let j = choose|j: int| 0 <= j < pre.len() && pre[j] == c;
                    assert(post[j] == c);
                }
                if c == p {
                    assert(post[i as int] == c);
                }
            }
        }
        let ghost old_distinct = distinct@;
        proof {
            assert(Argb(p.0) == p);
        }
        match counts.get(&p.0) {
            Some(k) => {
                let k = *k;
                proof {
                    lemma_occurrences_bound(pre, p);
                    assert(pre.contains(p));
                }
                counts.insert(p.0, k + 1);
            },
            None => {
                proof {
                    assert(!pre.contains(p));
                    lemma_occurrences_bound(pre, p);
                    assert forall|a: int, b: int| 0 <= a < distinct@.push(p).len() && 0 <= b < distinct@.push(p).len() && a != b
                        implies distinct@.push(p)[a] != distinct@.push(p)[b] by {
                        if a < distinct@.len() && b == distinct@.len() {
                            assert(distinct@.contains(distinct@[a]));
                        }
                        if b < distinct@.len() && a == distinct@.len() {
                            assert(distinct@.contains(distinct@[b]));
                        }
                    }
                }
                counts.insert(p.0, 1);
                distinct.push(p);
            },
        }
        proof {
            assert forall|c: Argb| #[trigger] distinct@.contains(c) <==> post.contains(c) by {
                if distinct@.len() > old_distinct.len() {
                    assert(distinct@ == old_distinct.push(p));
                    if distinct@.contains(c) && c != p {
                        let j = choose|j: int| 0 <= j < distinct@.len() && distinct@[j] == c;
                        assert(old_distinct[j] == c);
                    }
                    if old_distinct.contains(c) {
                        let j = choose|j: int| 0 <= j < old_distinct.len() && old_distinct[j] == c;
                        assert(distinct@[j] == c);
                    }
                    if c == p {
                        assert(distinct@[old_distinct.len() as int] == c);
                    }
                }
            }
        }
        i += 1;
    }
    proof {
        assert(pixels@.take(n as int) =~= pixels@);
        assert forall|c: Argb| #[trigger] pixels@.contains(c) implies counts@.contains_key(c.0) && counts@[c.0] == occurrences(pixels@, c) by {
            assert(Argb(c.0) == c);
            assert(pixels@.take(n as int).contains(Argb(c.0)));
            assert(counts@.contains_key(c.0));
        }
    }
    (counts, distinct)
}

/// The sort key of colour `c`: more frequent first, then lower value.
spec fn visit_key(ps: Seq<Argb>, c: Argb) -> (u64, u32) {
    ((u64::MAX - occurrences(ps, c)) as u64, c.0)
}

/// The distinct colours of `pixels` in visiting order.
fn visiting_order(pixels: &Vec<Argb>, counts: &HashMap<u32, usize>, distinct: &Vec<Argb>) -> (order: Vec<Argb>)
    requires
        forall|c: Argb| #[trigger] distinct@.contains(c) <==> pixels@.contains(c),
        distinct@.no_duplicates(),
        forall|c: Argb| #[trigger] pixels@.contains(c) ==> counts@.contains_key(c.0) && counts@[c.0] == occurrences(pixels@, c),
    ensures
        order@.no_duplicates(),
        forall|c: Argb| #[trigger] order@.contains(c) <==> pixels@.contains(c),
        forall|i: int, j: int| 0 <= i < j < order@.len() ==> ranks_before(pixels@, #[trigger] order@[i], #[trigger] order@[j]),
{
    let ghost ps = pixels@;
    let n = distinct.len();
    let mut keys: Vec<(u64, u32)> = Vec::new();
    let mut i: usize = 0;
    while i < n
        invariant
            i <= n,
            n == distinct@.len(),
            ps == pixels@,
            forall|c: Argb| #[trigger] distinct@.contains(c) <==> ps.contains(c),
            forall|c: Argb| #[trigger] ps.contains(c) ==> counts@.contains_key(c.0) && counts@[c.0] == occurrences(ps, c),
            keys@ == distinct@.take(i as int).map_values(|c: Argb| visit_key(ps, c)),
        decreases n - i,
    {
        let c = distinct[i];
        proof {
            assert(distinct@.contains(c));
            lemma_occurrences_bound(ps, c);
        }
        let k = match counts.get(&c.0) {
            Some(k) => *k,
            None => 0,
        };
        keys.push((u64::MAX - k as u64, c.0));
        proof {
            assert(distinct@.take(i + 1) =~= distinct@.take(i as int).push(c));
            assert(keys@ =~= distinct@.take(i + 1).map_values(|c: Argb| visit_key(ps, c)));
        }
        i += 1;
    }
    proof {
        assert(distinct@.take(n as int) =~= distinct@);
    }
    let ghost unsorted = keys@;
    proof {
        assert(unsorted.no_duplicates()) by {
            assert forall|a: int, b: int| 0 <= a < unsorted.len() && 0 <= b < unsorted.len() && a != b
                implies unsorted[a] != unsorted[b] by {
                assert(distinct@[a] != distinct@[b]);
            }
        }
        unsorted.lemma_multiset_has_no_duplicates();
    }
    sort_pairs(&mut keys);
    let ghost sorted = keys@;
    proof {
        broadcast use vstd::seq_lib::group_to_multiset_ensures;
        sorted.lemma_multiset_has_no_duplicates_conv();
        assert forall|x: (u64, u32)| #[trigger] sorted.contains(x) <==> unsorted.contains(x) by {
            assert(sorted.to_multiset().count(x) == unsorted.to_multiset().count(x));
        }
    }
    let m = keys.len();
    let mut order: Vec<Argb> = Vec::new();
    let mut j: usize = 0;
    while j < m
        invariant
            j <= m,
            m == sorted.len(),
            sorted == keys@,
            order@ == sorted.take(j as int).map_values(|k: (u64, u32)| Argb(k.1)),
        decreases m - j,
    {
        order.push(Argb(keys[j].1));
        proof {
            assert(sorted.take(j + 1) =~= sorted.take(j as int).push(sorted[j as int]));
            assert(order@ =~= sorted.take(j + 1).map_values(|k: (u64, u32)| Argb(k.1)));
        }
        j += 1;
    }
    proof {
        assert(sorted.take(m as int) =~= sorted);
        // Every sorted key is the key of a distinct colour.
        assert forall|a: int| 0 <= a < sorted.len() implies #[trigger] sorted[a] == visit_key(ps, order@[a]) && ps.contains(order@[a]) by {
            assert(sorted.contains(sorted[a]));
            let b = choose|b: int| 0 <= b < unsorted.len() && unsorted[b] == sorted[a];
            assert(distinct@.contains(distinct@[b]));
            assert(order@[a] == Argb(sorted[a].1));
            assert(Argb(distinct@[b].0) == distinct@[b]);
        }
        assert forall|a: int, b: int| 0 <= a < b < order@.len() implies ranks_before(ps, #[trigger] order@[a], #[trigger] order@[b]) by {
            assert(sorted[a] == visit_key(ps, order@[a]));
            assert(sorted[b] == visit_key(ps, order@[b]));
            assert(pair_le(sorted[a], sorted[b]));
            assert(sorted[a] != sorted[b]);
            lemma_occurrences_bound(ps, order@[a]);
            lemma_occurrences_bound(ps, order@[b]);
        }
        assert forall|a: int, b: int| 0 <= a < order@.len() && 0 <= b < order@.len() && a != b implies order@[a] != order@[b] by {
            assert(sorted[a] == visit_key(ps, order@[a]));
            assert(sorted[b] == visit_key(ps, order@[b]));
        }
        assert forall|c: Argb| #[trigger] order@.contains(c) <==> ps.contains(c) by {
            if ps.contains(c) {
                assert(distinct@.contains(c));
                let b = choose|b: int| 0 <= b < distinct@.len() && distinct@[b] == c;
                assert(unsorted[b] == visit_key(ps, c));
                assert(unsorted.contains(unsorted[b]));
                assert(sorted.contains(unsorted[b]));
                let a = choose|a: int| 0 <= a < sorted.len() && sorted[a] == unsorted[b];
                assert(order@[a] == Argb(sorted[a].1));
                assert(Argb(c.0) == c);
            }
            if order@.contains(c) {
                let a = choose|a: int| 0 <= a < order@.len() && order@[a] == c;
                assert(sorted[a] == visit_key(ps, order@[a]) && ps.contains(order@[a]));
            }
        }
    }
    order
}

/// The key of cell `(r, g, b)` in the representative index.
pub open spec fn pack(k: (int, int, int)) -> int {
    k.0 + 256 * k.1 + 65536 * k.2
}

/// The representative index: every representative's cell has a bucket,
/// and the bucket of a cell lists the indices of the representatives in
/// it, in ascending order.
spec fn indexed(cells: Map<u32, Vec<usize>>, reps: Seq<Argb>, cell: u32) -> bool {
    &&& forall|i: int| 0 <= i < reps.len() ==> #[trigger] cells.contains_key(pack(cell_of(cell, reps[i])) as u32)
    &&& forall|key: u32| #[trigger] cells.contains_key(key) ==> bucket_ok(cells[key]@, reps, cell, key)
}

spec fn bucket_ok(ids: Seq<usize>, reps: Seq<Argb>, cell: u32, key: u32) -> bool {
    &&& forall|t: int| 0 <= t < ids.len() ==> #[trigger] ids[t] < reps.len() && pack(cell_of(cell, reps[ids[t] as int])) == key
    &&& forall|t1: int, t2: int| 0 <= t1 < t2 < ids.len() ==> #[trigger] ids[t1] < #[trigger] ids[t2]
    &&& forall|i: int| 0 <= i < reps.len() && #[trigger] pack(cell_of(cell, reps[i])) == key ==> ids.contains(i as usize)
}

/// Every representative near `c` whose cell comes before `k`, or is `k`
/// with an index below `lim`, was answered not close to `c`.
spec fn refused_before<F: Fn(Argb, Argb) -> bool>(
    close: F,
    c: Argb,
    cell: u32,
    reps: Seq<Argb>,
    k: (int, int, int),
    lim: int,
) -> bool {
    forall|i: int|
        0 <= i < reps.len() && near(cell, c, #[trigger] reps[i]) && (lex_lt(cell_of(cell, reps[i]), k) || (
        cell_of(cell, reps[i]) == k && i < lim)) ==> call_ensures(close, (c, reps[i]), false)
}

proof fn lemma_cell_range(cell: u32, c: Argb)
    requires
        cell >= 1,
    ensures
        0 <= cell_of(cell, c).0 <= 255int / (cell as int),
        0 <= cell_of(cell, c).1 <= 255int / (cell as int),
        0 <= cell_of(cell, c).2 <= 255int / (cell as int),
        255int / (cell as int) <= 255,
{
    vstd::arithmetic::div_mod::lemma_div_is_ordered(c.red() as int, 255, cell as int);
    vstd::arithmetic::div_mod::lemma_div_is_ordered(c.green() as int, 255, cell as int);
    vstd::arithmetic::div_mod::lemma_div_is_ordered(c.blue() as int, 255, cell as int);
    vstd::arithmetic::div_mod::lemma_div_is_ordered(0, c.red() as int, cell as int);
    vstd::arithmetic::div_mod::lemma_div_is_ordered(0, c.green() as int, cell as int);
    vstd::arithmetic::div_mod::lemma_div_is_ordered(0, c.blue() as int, cell as int);
    vstd::arithmetic::div_mod::lemma_div_basics(255);
    vstd::arithmetic::div_mod::lemma_div_is_ordered_by_denominator(255, 1, cell as int);
}

proof fn lemma_pack_injective(a: (int, int, int), b: (int, int, int))
    requires
        0 <= a.0 < 256,
        0 <= a.1 < 256,
        0 <= a.2 < 256,
        0 <= b.0 < 256,
        0 <= b.1 < 256,
        0 <= b.2 < 256,
        pack(a) == pack(b),
    ensures
        a == b,
{
    let x = pack(a);
    let qa = a.1 + 256 * a.2;
    let qb = b.1 + 256 * b.2;
    assert(x == qa * 256 + a.0 && x == qb * 256 + b.0);
    vstd::arithmetic::div_mod::lemma_fundamental_div_mod_converse(x, 256, qa, a.0);
    vstd::arithmetic::div_mod::lemma_fundamental_div_mod_converse(x, 256, qb, b.0);
    assert(qa == a.2 * 256 + a.1 && qb == b.2 * 256 + b.1);
    vstd::arithmetic::div_mod::lemma_fundamental_div_mod_converse(qa, 256, a.2, a.1);
    vstd::arithmetic::div_mod::lemma_fundamental_div_mod_converse(qb, 256, b.2, b.1);
}

fn pack_cell(r: u32, g: u32, b: u32) -> (key: u32)
    requires
        r < 256,
        g < 256,
        b < 256,
    ensures
        key == pack((r as int, g as int, b as int)),
{
    assert(r | (g << 8) | (b << 16) == r + 256 * g + 65536 * b) by (bit_vector)
        requires
            r < 256,
            g < 256,
            b < 256,
    ;
    r | (g << 8) | (b << 16)
}

/// The key of the cell of `c`.
fn cell_key(c: Argb, cell: u32) -> (key: u32)
    requires
        cell >= 1,
    ensures
        key == pack(cell_of(cell, c)),
{
    proof {
        lemma_cell_range(cell, c);
    }
    pack_cell(c.r() / cell, c.g() / cell, c.b() / cell)
}

fn lower_bound(k: u32) -> (lo: u32)
    ensures
        lo == if k > 0 { k - 1 } else { 0int },
{
    if k > 0 {
        k - 1
    } else {
        0
    }
}

fn upper_bound(k: u32, max_idx: u32) -> (hi: u32)
    requires
        k <= max_idx <= 255,
    ensures
        hi == if k < max_idx { k + 1 } else { max_idx as int },
{
    if k < max_idx {
        k + 1
    } else {
        max_idx
    }
}

/// A representative was found for `c`: it is near `c` and answered close,
/// and every representative compared before it was answered not close.
spec fn found_ok<F: Fn(Argb, Argb) -> bool>(close: F, c: Argb, cell: u32, reps: Seq<Argb>, found: Option<usize>) -> bool {
    match found {
        Some(id) => {
            &&& id < reps.len()
            &&& near(cell, c, reps[id as int])
            &&& call_ensures(close, (c, reps[id as int]), true)
            &&& refused_before(close, c, cell, reps, cell_of(cell, reps[id as int]), id as int)
        },
        None => true,
    }
}

/// Compare `c` with the representatives listed in the bucket of cell
/// `here`, in order, up to the first one answered close.
fn scan_bucket<F: Fn(Argb, Argb) -> bool>(
    c: Argb,
    cell: u32,
    reps: &Vec<Argb>,
    ids: &Vec<usize>,
    close: &F,
    Ghost(here): Ghost<(int, int, int)>,
) -> (found: Option<usize>)
    requires
        cell >= 1,
        bucket_ok(ids@, reps@, cell, pack(here) as u32),
        0 <= here.0 < 256,
        0 <= here.1 < 256,
        0 <= here.2 < 256,
        forall|a: Argb, b: Argb| close.requires((a, b)),
    ensures
        match found {
            Some(id) => {
                &&& id < reps@.len()
                &&& cell_of(cell, reps@[id as int]) == here
                &&& call_ensures(*close, (c, reps@[id as int]), true)
                &&& forall|i: int|
                    0 <= i < id && near(cell, c, #[trigger] reps@[i]) && cell_of(cell, reps@[i]) == here
                        ==> call_ensures(*close, (c, reps@[i]), false)
            },
            None => forall|i: int|
                0 <= i < reps@.len() && near(cell, c, #[trigger] reps@[i]) && cell_of(cell, reps@[i]) == here
                    ==> call_ensures(*close, (c, reps@[i]), false),
        },
{
    let ghost rs = reps@;
    let ghost bucket = ids@;
    let ghost key = pack(here) as u32;
    let nreps = reps.len();
    let mut t: usize = 0;
    while t < ids.len()
        invariant
            rs == reps@,
            rs.len() == nreps,
            cell >= 1,
            forall|a: Argb, b: Argb| close.requires((a, b)),
            bucket == ids@,
            bucket_ok(bucket, rs, cell, key),
            key == pack(here),
            0 <= here.0 < 256,
            0 <= here.1 < 256,
            0 <= here.2 < 256,
            t <= bucket.len(),
            forall|i: int|
                0 <= i < rs.len() && near(cell, c, #[trigger] rs[i]) && cell_of(cell, rs[i]) == here
                    && bucket.take(t as int).contains(i as usize) ==> call_ensures(*close, (c, rs[i]), false),
        decreases bucket.len() - t,
    {
        let id = ids[t];
        let r = reps[id];
        proof {
            lemma_cell_range(cell, r);
            lemma_pack_injective(cell_of(cell, r), here);
            assert(bucket.take(t + 1) =~= bucket.take(t as int).push(id));
        }
        let answer = close(c, r);
        if answer {
            proof {
                assert forall|i: int|
                    0 <= i < id && near(cell, c, #[trigger] rs[i]) && cell_of(cell, rs[i]) == here
                        implies call_ensures(*close, (c, rs[i]), false) by {
                    assert(bucket.contains(i as usize));
                    let u = choose|u: int| 0 <= u < bucket.len() && bucket[u] == i as usize;
                    if u > t {
                        assert(bucket[t as int] < bucket[u]);
                    }
                    assert(bucket.take(t as int)[u] == i as usize);
                }
            }
            return Some(id);
        }
        proof {
            assert forall|i: int|
                0 <= i < rs.len() && near(cell, c, #[trigger] rs[i]) && cell_of(cell, rs[i]) == here
                    && bucket.take(t + 1).contains(i as usize) implies call_ensures(*close, (c, rs[i]), false) by {
                let pre = bucket.take(t + 1);
                let u = choose|u: int| 0 <= u < pre.len() && #[trigger] pre[u] == i as usize;
                if u < t {
                    assert(bucket.take(t as int)[u] == i as usize);
                } else {
                    assert(i == id as int);
                    assert(rs[i] == r);
                }
            }
        }
        t += 1;
    }
    proof {
        assert(bucket.take(t as int) =~= bucket);
        assert forall|i: int|
            0 <= i < rs.len() && near(cell, c, #[trigger] rs[i]) && cell_of(cell, rs[i]) == here
                implies call_ensures(*close, (c, rs[i]), false) by {
            lemma_cell_range(cell, rs[i]);
            assert(bucket.contains(i as usize));
        }
    }
    None
}

/// The first representative close to `c`: the representatives of the cell
/// of `c` and of its adjacent cells are compared with `c`, cells in
/// row-major order and, within a cell, in the order they became
/// representatives.
fn find_rep<F: Fn(Argb, Argb) -> bool>(
    c: Argb,
    cell: u32,
    reps: &Vec<Argb>,
    cells: &HashMap<u32, Vec<usize>>,
    close: &F,
) -> (found: Option<usize>)
    requires
        cell >= 1,
        indexed(cells@, reps@, cell),
        forall|a: Argb, b: Argb| close.requires((a, b)),
    ensures
        found_ok(*close, c, cell, reps@, found),
        found is None ==> forall|i: int|
            0 <= i < reps@.len() && near(cell, c, #[trigger] reps@[i]) ==> call_ensures(*close, (c, reps@[i]), false),
{
    let ghost rs = reps@;
    let max_idx = 255 / cell;
    proof {
        lemma_cell_range(cell, c);
    }
    let (rk, gk, bk) = (c.r() / cell, c.g() / cell, c.b() / cell);
    let lo_r = lower_bound(rk);
    let hi_r = upper_bound(rk, max_idx);
    let lo_g = lower_bound(gk);
    let hi_g = upper_bound(gk, max_idx);
    let lo_b = lower_bound(bk);
    let hi_b = upper_bound(bk, max_idx);
    // Every representative near `c` lies in the searched box.
    proof {
        assert forall|i: int| 0 <= i < rs.len() && near(cell, c, #[trigger] rs[i]) implies lo_r <= cell_of(cell, rs[i]).0 <= hi_r
            && lo_g <= cell_of(cell, rs[i]).1 <= hi_g && lo_b <= cell_of(cell, rs[i]).2 <= hi_b by {
            lemma_cell_range(cell, rs[i]);
        }
    }
    let mut found: Option<usize> = None;
    let mut rc = lo_r;
    while rc <= hi_r && found.is_none()
        invariant
            rs == reps@,
            cell >= 1,
            indexed(cells@, rs, cell),
            forall|a: Argb, b: Argb| close.requires((a, b)),
            hi_r <= 255,
            hi_g <= 255,
            hi_b <= 255,
            lo_r <= rc <= hi_r + 1,
            lo_g <= hi_g,
            lo_b <= hi_b,
            rk - 1 <= lo_r && hi_r <= rk + 1 && gk - 1 <= lo_g && hi_g <= gk + 1 && bk - 1 <= lo_b && hi_b <= bk + 1,
            cell_of(cell, c) == (rk as int, gk as int, bk as int),
            forall|i: int| 0 <= i < rs.len() && near(cell, c, #[trigger] rs[i]) ==> lo_r <= cell_of(cell, rs[i]).0 <= hi_r
                && lo_g <= cell_of(cell, rs[i]).1 <= hi_g && lo_b <= cell_of(cell, rs[i]).2 <= hi_b,
            found_ok(*close, c, cell, rs, found),
            found is Some ==> lo_r <= cell_of(cell, rs[found->0 as int]).0 <= hi_r,
            found is None ==> refused_before(*close, c, cell, rs, (rc as int, lo_g as int, lo_b as int), 0),
        decreases hi_r + 1 - rc,
    {
        let mut gc = lo_g;
        while gc <= hi_g && found.is_none()
            invariant
                rs == reps@,
                cell >= 1,
                indexed(cells@, rs, cell),
                forall|a: Argb, b: Argb| close.requires((a, b)),
                hi_r <= 255,
                hi_g <= 255,
                hi_b <= 255,
                lo_r <= rc <= hi_r,
                lo_g <= gc <= hi_g + 1,
                lo_b <= hi_b,
                rk - 1 <= lo_r && hi_r <= rk + 1 && gk - 1 <= lo_g && hi_g <= gk + 1 && bk - 1 <= lo_b && hi_b <= bk + 1,
                cell_of(cell, c) == (rk as int, gk as int, bk as int),
                forall|i: int| 0 <= i < rs.len() && near(cell, c, #[trigger] rs[i]) ==> lo_r <= cell_of(cell, rs[i]).0 <= hi_r
                    && lo_g <= cell_of(cell, rs[i]).1 <= hi_g && lo_b <= cell_of(cell, rs[i]).2 <= hi_b,
                found_ok(*close, c, cell, rs, found),
                found is None ==> refused_before(*close, c, cell, rs, (rc as int, gc as int, lo_b as int), 0),
            decreases hi_g + 1 - gc,
        {
            let mut bc = lo_b;
            while bc <= hi_b && found.is_none()
                invariant
                    rs == reps@,
                    cell >= 1,
                    indexed(cells@, rs, cell),
                    forall|a: Argb, b: Argb| close.requires((a, b)),
                    hi_r <= 255,
                    hi_g <= 255,
                    hi_b <= 255,
                    lo_r <= rc <= hi_r,
                    lo_g <= gc <= hi_g,
                    lo_b <= bc <= hi_b + 1,
                    rk - 1 <= lo_r && hi_r <= rk + 1 && gk - 1 <= lo_g && hi_g <= gk + 1 && bk - 1 <= lo_b && hi_b <= bk + 1,
                    cell_of(cell, c) == (rk as int, gk as int, bk as int),
                    forall|i: int| 0 <= i < rs.len() && near(cell, c, #[trigger] rs[i]) ==> lo_r <= cell_of(cell, rs[i]).0 <= hi_r
                        && lo_g <= cell_of(cell, rs[i]).1 <= hi_g && lo_b <= cell_of(cell, rs[i]).2 <= hi_b,
                    found_ok(*close, c, cell, rs, found),
                    found is None ==> refused_before(*close, c, cell, rs, (rc as int, gc as int, bc as int), 0),
                decreases hi_b + 1 - bc,
            {
                let key = pack_cell(rc, gc, bc);
                let ghost here = (rc as int, gc as int, bc as int);
                match cells.get(&key) {
                    Some(ids) => {
                        proof {
                            assert(bucket_ok(ids@, rs, cell, key));
                        }
                        found = scan_bucket(c, cell, reps, ids, close, Ghost(here));
                        proof {
                            if found is None {
                                assert forall|i: int|
                                    0 <= i < rs.len() && near(cell, c, #[trigger] rs[i]) && lex_lt(cell_of(cell, rs[i]), (rc as int, gc as int, bc + 1))
                                        implies call_ensures(*close, (c, rs[i]), false) by {
                                    if cell_of(cell, rs[i]) == here {
                                    } else {
                                        assert(lex_lt(cell_of(cell, rs[i]), here));
                                    }
                                }
                            } else {
                                let id = found->0 as int;
                                assert forall|i: int|
                                    0 <= i < rs.len() && near(cell, c, #[trigger] rs[i]) && (lex_lt(cell_of(cell, rs[i]), cell_of(cell, rs[id])) || (
                                    cell_of(cell, rs[i]) == cell_of(cell, rs[id]) && i < id))
                                        implies call_ensures(*close, (c, rs[i]), false) by {
                                }
                            }
                        }
                    },
                    None => {
                        proof {
                            assert forall|i: int|
                                0 <= i < rs.len() && near(cell, c, #[trigger] rs[i]) && lex_lt(cell_of(cell, rs[i]), (rc as int, gc as int, bc + 1))
                                    implies call_ensures(*close, (c, rs[i]), false) by {
                                if cell_of(cell, rs[i]) == here {
                                    lemma_cell_range(cell, rs[i]);
                                    assert(cells@.contains_key(pack(cell_of(cell, rs[i])) as u32));
                                }
                            }
                        }
                    },
                }
                bc += 1;
            }
            gc += 1;
        }
        rc += 1;
    }
    found
}

/// The colour map held by `remap`, keyed by colour value.
pub open spec fn colour_map(remap: Map<u32, u32>) -> Map<Argb, Argb> {
    Map::new(|c: Argb| remap.contains_key(c.0), |c: Argb| Argb(remap[c.0]))
}

/// `order` holds the distinct colours of `ps` in visiting order.
spec fn in_visiting_order(ps: Seq<Argb>, order: Seq<Argb>) -> bool {
    &&& order.no_duplicates()
    &&& forall|c: Argb| #[trigger] order.contains(c) <==> ps.contains(c)
    &&& forall|i: int, j: int| 0 <= i < j < order.len() ==> ranks_before(ps, #[trigger] order[i], #[trigger] order[j])
}

/// A colour visited before `order[j]` comes earlier in `order`.
proof fn lemma_visited_earlier(ps: Seq<Argb>, order: Seq<Argb>, q: Argb, j: int)
    requires
        in_visiting_order(ps, order),
        0 <= j < order.len(),
        ps.contains(q),
        ranks_before(ps, q, order[j]),
    ensures
        exists|i: int| 0 <= i < j && order[i] == q,
{
    assert(order.contains(q));
    let i = choose|i: int| 0 <= i < order.len() && order[i] == q;
    if i > j {
        assert(ranks_before(ps, order[j], order[i]));
    }
}

/// Assignments made so far stay as they are when more colours are added.
proof fn lemma_assigned_stable<F: Fn(Argb, Argb) -> bool>(
    ps: Seq<Argb>,
    cell: u32,
    close: F,
    m: Map<Argb, Argb>,
    m2: Map<Argb, Argb>,
    c: Argb,
)
    requires
        assigned(ps, cell, close, m, c),
        forall|q: Argb| #[trigger] m.contains_key(q) ==> m2.contains_key(q) && m2[q] == m[q],
        forall|q: Argb| #[trigger] ps.contains(q) && ranks_before(ps, q, c) ==> m.contains_key(q),
    ensures
        assigned(ps, cell, close, m2, c),
{
    assert(m2[c] == m[c]);
    let r = m[c];
    assert forall|q: Argb|
        #![trigger ps.contains(q), m2[q]]
        ps.contains(q) && m2[q] == q && ranks_before(ps, q, c) && near(cell, c, q) && (r == c
            || searched_before(ps, cell, q, r)) implies call_ensures(close, (c, q), false) by {
        assert(m.contains_key(q));
        assert(m[q] == q);
    }
}

/// Merge near-duplicate colours of `img` into representatives, replacing
/// every pixel with its cluster's colour. `close` tells whether a colour is
/// close enough to a representative to join its cluster; `cell` is the
/// width of the grid cells that index the representatives. Images with at
/// most one colour come back unchanged.
pub fn quantize_with<F: Fn(Argb, Argb) -> bool>(img: &ArgbImage, cell: u32, close: F) -> (out: ArgbImage)
    requires
        img.wf(),
        cell >= 1,
        forall|a: Argb, b: Argb| close.requires((a, b)),
    ensures
        out.width == img.width,
        out.height == img.height,
        out.wf(),
        exists|m: Map<Argb, Argb>|
            #[trigger] clustered(img.pixels@, cell, close, m) && out.pixels@ == img.pixels@.map_values(|p: Argb| m[p]),
{
    let ghost ps = img.pixels@;
    let ghost ident = Map::new(|c: Argb| true, |c: Argb| c);
    if img.pixels.len() == 0 {
        let out = copy_image(img);
        proof {
            assert(clustered(ps, cell, close, ident));
            assert(out.pixels@ =~= ps.map_values(|p: Argb| ident[p]));
        }
        return out;
    }
    let (counts, distinct) = count_colours(&img.pixels);
    if distinct.len() <= 1 {
        let out = copy_image(img);
        proof {
            assert forall|c: Argb| #[trigger] ps.contains(c) implies assigned(ps, cell, close, ident, c) by {
                assert forall|q: Argb|
                    #![trigger ps.contains(q), ident[q]]
                    ps.contains(q) && ident[q] == q && ranks_before(ps, q, c) && near(cell, c, q)
                        implies call_ensures(close, (c, q), false) by {
                    assert(distinct@.contains(q) && distinct@.contains(c));
                    let a = choose|a: int| 0 <= a < distinct@.len() && distinct@[a] == q;
                    let b = choose|b: int| 0 <= b < distinct@.len() && distinct@[b] == c;
                }
            }
            assert(clustered(ps, cell, close, ident));
            assert(out.pixels@ =~= ps.map_values(|p: Argb| ident[p]));
        }
        return out;
    }
    let order = visiting_order(&img.pixels, &counts, &distinct);
    let ghost ord = order@;

    let mut cells: HashMap<u32, Vec<usize>> = HashMap::new();
    let mut reps: Vec<Argb> = Vec::new();
    let mut remap: HashMap<u32, u32> = HashMap::new();
    let ghost mut rep_pos: Seq<int> = Seq::empty();
    let n = order.len();
    let mut k: usize = 0;
    while k < n
        invariant
            ps == img.pixels@,
            ord == order@,
            n == ord.len(),
            k <= n,
            cell >= 1,
            forall|a: Argb, b: Argb| close.requires((a, b)),
            in_visiting_order(ps, ord),
            indexed(cells@, reps@, cell),
            rep_pos.len() == reps@.len(),
            forall|i: int| 0 <= i < reps@.len() ==> 0 <= #[trigger] rep_pos[i] < k && ord[rep_pos[i]] == reps@[i],
            forall|i1: int, i2: int| 0 <= i1 < i2 < reps@.len() ==> #[trigger] rep_pos[i1] < #[trigger] rep_pos[i2],
            forall|i: int| 0 <= i < reps@.len() ==> #[trigger] remap@.contains_key(reps@[i].0) && remap@[reps@[i].0] == reps@[i].0,
            forall|j: int| 0 <= j < k ==> #[trigger] remap@.contains_key(ord[j].0),
            forall|v: u32| #[trigger] remap@.contains_key(v) ==> exists|j: int| 0 <= j < k && ord[j].0 == v,
            forall|j: int| 0 <= j < k && remap@[ord[j].0] == ord[j].0 ==> reps@.contains(#[trigger] ord[j]),
            forall|j: int| 0 <= j < k ==> assigned(ps, cell, close, colour_map(remap@), #[trigger] ord[j]),
        decreases n - k,
    {
        let c = order[k];
        let ghost m = colour_map(remap@);
        proof {
            assert(ps.contains(c)) by {
                assert(ord.contains(ord[k as int]));
            }
            // `c` has not been assigned yet.
            if remap@.contains_key(c.0) {
                let j = choose|j: int| 0 <= j < k && ord[j].0 == c.0;
                assert(Argb(ord[j].0) == ord[j] && Argb(c.0) == c);
            }
        }
        let found = find_rep(c, cell, &reps, &cells, &close);
        let ghost old_remap = remap@;
        let ghost old_reps = reps@;
        match found {
            Some(id) => {
                let r = reps[id];
                remap.insert(c.0, r.0);
                proof {
                    let m2 = colour_map(remap@);
                    assert(m2[c] == r) by {
                        assert(Argb(r.0) == r);
                    }
                    assert(ranks_before(ps, r, c)) by {
                        assert(rep_pos[id as int] < k);
                    }
                    assert(r != c);
                    assert(ps.contains(r)) by {
                        assert(ord.contains(ord[rep_pos[id as int]]));
                    }
                    assert(m2.contains_key(r) && m2[r] == r) by {
                        assert(Argb(r.0) == r && Argb(c.0) == c);
                        assert(r.0 != c.0);
                        assert(old_remap.contains_key(old_reps[id as int].0));
                        assert(old_remap[r.0] == r.0);
                        assert(remap@[r.0] == r.0);
                    }
                    assert forall|q: Argb|
                        #![trigger ps.contains(q), m2[q]]
                        ps.contains(q) && m2[q] == q && ranks_before(ps, q, c) && near(cell, c, q)
                            && searched_before(ps, cell, q, r) implies call_ensures(close, (c, q), false) by {
                        lemma_visited_earlier(ps, ord, q, k as int);
                        let j = choose|j: int| 0 <= j < k && ord[j] == q;
                        assert(remap@[ord[j].0] == old_remap[ord[j].0]);
                        assert(Argb(q.0) == q);
                        assert(old_reps.contains(ord[j]));
                        let i = choose|i: int| 0 <= i < old_reps.len() && old_reps[i] == q;
                        if cell_of(cell, q) == cell_of(cell, r) && i >= id {
                            if i > id {
                                assert(rep_pos[id as int] < rep_pos[i]);
                                assert(ranks_before(ps, ord[rep_pos[id as int]], ord[rep_pos[i]]));
                            }
                        }
                    }
                    assert(assigned(ps, cell, close, m2, c));
                    assert forall|j: int| 0 <= j < k implies assigned(ps, cell, close, m2, #[trigger] ord[j]) by {
                        assert(assigned(ps, cell, close, m, ord[j]));
                        assert forall|q: Argb| #[trigger] m.contains_key(q) implies m2.contains_key(q) && m2[q] == m[q] by {
                            if q.0 == c.0 {
                                assert(Argb(q.0) == q && Argb(c.0) == c);
                            }
                        }
                        assert forall|q: Argb| #[trigger] ps.contains(q) && ranks_before(ps, q, ord[j]) implies m.contains_key(q) by {
                            lemma_visited_earlier(ps, ord, q, j);
                            let i = choose|i: int| 0 <= i < j && ord[i] == q;
                        }
                        lemma_assigned_stable(ps, cell, close, m, m2, ord[j]);
                    }
                    assert forall|v: u32| #[trigger] remap@.contains_key(v) implies exists|j: int| 0 <= j < k + 1 && ord[j].0 == v by {
                        if v != c.0 {
                            assert(old_remap.contains_key(v));
                            let j = choose|j: int| 0 <= j < k && ord[j].0 == v;
                        } else {
                            assert(ord[k as int].0 == v);
                        }
                    }
                    assert forall|i: int| 0 <= i < reps@.len() implies #[trigger] remap@.contains_key(reps@[i].0) && remap@[reps@[i].0] == reps@[i].0 by {
                        assert(reps@[i] != c) by {
                            assert(rep_pos[i] < k);
                        }
                    }
                    assert forall|j: int| 0 <= j < k + 1 && remap@[ord[j].0] == ord[j].0 implies reps@.contains(#[trigger] ord[j]) by {
                        if j == k {
                            assert(r.0 != c.0) by {
                                assert(Argb(r.0) == r && Argb(c.0) == c);
                            }
                        } else {
                            assert(ord[j].0 != c.0) by {
                                assert(Argb(ord[j].0) == ord[j] && Argb(c.0) == c);
                            }
                        }
                    }
                }
            },
            None => {
                let id = reps.len();
                let key = cell_key(c, cell);
                let ghost old_cells = cells@;
                let mut bucket = match cells.remove(&key) {
                    Some(ids) => ids,
                    None => Vec::new(),
                };
                let ghost old_bucket = bucket@;
                bucket.push(id);
                cells.insert(key, bucket);
                reps.push(c);
                remap.insert(c.0, c.0);
                proof {
                    rep_pos = rep_pos.push(k as int);
                    let m2 = colour_map(remap@);
                    let rs = reps@;
                    assert(rs == old_reps.push(c));
                    assert forall|i: int| 0 <= i < old_reps.len() implies rs[i] == #[trigger] old_reps[i] by {}
                    assert(m2[c] == c) by {
                        assert(Argb(c.0) == c);
                    }
                    assert forall|q: Argb|
                        #![trigger ps.contains(q), m2[q]]
                        ps.contains(q) && m2[q] == q && ranks_before(ps, q, c) && near(cell, c, q)
                            implies call_ensures(close, (c, q), false) by {
                        lemma_visited_earlier(ps, ord, q, k as int);
                        let j = choose|j: int| 0 <= j < k && ord[j] == q;
                        assert(remap@[ord[j].0] == old_remap[ord[j].0]);
                        assert(Argb(q.0) == q);
                        assert(old_reps.contains(ord[j]));
                        let i = choose|i: int| 0 <= i < old_reps.len() && old_reps[i] == q;
                    }
                    assert(assigned(ps, cell, close, m2, c));
                    assert forall|j: int| 0 <= j < k implies assigned(ps, cell, close, m2, #[trigger] ord[j]) by {
                        assert(assigned(ps, cell, close, m, ord[j]));
                        assert forall|q: Argb| #[trigger] m.contains_key(q) implies m2.contains_key(q) && m2[q] == m[q] by {
                            if q.0 == c.0 {
                                assert(Argb(q.0) == q && Argb(c.0) == c);
                            }
                        }
                        assert forall|q: Argb| #[trigger] ps.contains(q) && ranks_before(ps, q, ord[j]) implies m.contains_key(q) by {
                            lemma_visited_earlier(ps, ord, q, j);
                            let i = choose|i: int| 0 <= i < j && ord[i] == q;
                        }
                        lemma_assigned_stable(ps, cell, close, m, m2, ord[j]);
                    }
                    assert forall|v: u32| #[trigger] remap@.contains_key(v) implies exists|j: int| 0 <= j < k + 1 && ord[j].0 == v by {
                        if v != c.0 {
                            assert(old_remap.contains_key(v));
                            let j = choose|j: int| 0 <= j < k && ord[j].0 == v;
                        } else {
                            assert(ord[k as int].0 == v);
                        }
                    }
                    assert forall|i: int| 0 <= i < rs.len() implies #[trigger] remap@.contains_key(rs[i].0) && remap@[rs[i].0] == rs[i].0 by {
                        if i < old_reps.len() {
                            assert(rs[i] != c) by {
                                assert(rep_pos[i] < k);
                            }
                            assert(rs[i].0 != c.0) by {
                                assert(Argb(rs[i].0) == rs[i] && Argb(c.0) == c);
                            }
                        }
                    }
                    assert forall|j: int| 0 <= j < k + 1 && remap@[ord[j].0] == ord[j].0 implies rs.contains(#[trigger] ord[j]) by {
                        if j == k {
                            assert(rs[old_reps.len() as int] == c);
                        } else {
                            assert(ord[j].0 != c.0) by {
                                assert(Argb(ord[j].0) == ord[j] && Argb(c.0) == c);
                            }
                            assert(old_reps.contains(ord[j]));
                            let i = choose|i: int| 0 <= i < old_reps.len() && old_reps[i] == ord[j];
                            assert(rs[i] == ord[j]);
                        }
                    }
                    // The index gains the new representative.
                    lemma_cell_range(cell, c);
                    assert(indexed(cells@, rs, cell)) by {
                        assert forall|key2: u32| #[trigger] cells@.contains_key(key2) implies bucket_ok(cells@[key2]@, rs, cell, key2) by {
                            if key2 == key {
                                let b = cells@[key2]@;
                                assert(b == old_bucket.push(id));
                                if old_cells.contains_key(key) {
                                    assert(old_bucket == old_cells[key]@);
                                    assert(bucket_ok(old_bucket, old_reps, cell, key));
                                } else {
                                    assert(old_bucket.len() == 0);
                                    assert forall|i: int| 0 <= i < old_reps.len() implies #[trigger] pack(cell_of(cell, old_reps[i])) != key by {
                                        assert(old_cells.contains_key(pack(cell_of(cell, old_reps[i])) as u32));
                                        lemma_cell_range(cell, old_reps[i]);
                                    }
                                }
                                assert forall|i: int| 0 <= i < rs.len() && #[trigger] pack(cell_of(cell, rs[i])) == key2
                                    implies b.contains(i as usize) by {
                                    if i < old_reps.len() {
                                        lemma_cell_range(cell, old_reps[i]);
                                        assert(old_bucket.contains(i as usize));
                                        let u = choose|u: int| 0 <= u < old_bucket.len() && old_bucket[u] == i as usize;
                                        assert(b[u] == i as usize);
                                    } else {
                                        assert(b[old_bucket.len() as int] == i as usize);
                                    }
                                }
                            } else {
                                assert(old_cells.contains_key(key2));
                                assert(bucket_ok(old_cells[key2]@, old_reps, cell, key2));
                                assert(cells@[key2] == old_cells[key2]);
                            }
                        }
                        assert forall|i: int| 0 <= i < rs.len() implies #[trigger] cells@.contains_key(pack(cell_of(cell, rs[i])) as u32) by {
                            if i < old_reps.len() {
                                assert(old_cells.contains_key(pack(cell_of(cell, old_reps[i])) as u32));
                            }
                        }
                    }
                }
            },
        }
        k += 1;
    }
    // Every pixel takes its colour's representative.
    let np = img.pixels.len();
    let mut pixels: Vec<Argb> = Vec::new();
    let ghost m = colour_map(remap@);
    let mut i: usize = 0;
    while i < np
        invariant
            i <= np,
            np == ps.len(),
            ps == img.pixels@,
            ord == order@,
            n == ord.len(),
            in_visiting_order(ps, ord),
            m == colour_map(remap@),
            forall|j: int| 0 <= j < n ==> #[trigger] remap@.contains_key(ord[j].0),
            pixels@ == ps.take(i as int).map_values(|p: Argb| m[p]),
        decreases np - i,
    {
        let p = img.pixels[i];
        proof {
            assert(ps.contains(p)) by {
                assert(ps[i as int] == p);
            }
            assert(ord.contains(p));
            let j = choose|j: int| 0 <= j < ord.len() && ord[j] == p;
            assert(remap@.contains_key(ord[j].0));
        }
        let q = match remap.get(&p.0) {
            Some(v) => Argb(*v),
            None => p,
        };
        pixels.push(q);
        proof {
            assert(ps.take(i + 1) =~= ps.take(i as int).push(p));
            assert(pixels@ =~= ps.take(i + 1).map_values(|p: Argb| m[p]));
        }
        i += 1;
    }
    proof {
        assert(ps.take(np as int) =~= ps);
        assert(clustered(ps, cell, close, m)) by {
            assert forall|c: Argb| #[trigger] ps.contains(c) implies assigned(ps, cell, close, m, c) by {
                assert(ord.contains(c));
                let j = choose|j: int| 0 <= j < ord.len() && ord[j] == c;
            }
        }
    }
    ArgbImage { width: img.width, height: img.height, pixels }
}

/// A colour either stays, as a representative, or moves to a
/// representative that is visited before it (more frequent, or as frequent
/// and of lower value), lies in its own or an adjacent cell and was
/// answered close to it.
pub proof fn law_colours_move_to_close_representatives<F: Fn(Argb, Argb) -> bool>(
    ps: Seq<Argb>,
    cell: u32,
    close: F,
    m: Map<Argb, Argb>,
    c: Argb,
)
    requires
        clustered(ps, cell, close, m),
        ps.contains(c),
    ensures
        m[m[c]] == m[c],
        m[c] == c || (ps.contains(m[c]) && ranks_before(ps, m[c], c) && near(cell, c, m[c]) && call_ensures(close, (c, m[c]), true)),
{
    assert(assigned(ps, cell, close, m, c));
}

/// An image of a single colour keeps it.
pub proof fn law_single_colour_kept<F: Fn(Argb, Argb) -> bool>(
    ps: Seq<Argb>,
    cell: u32,
    close: F,
    m: Map<Argb, Argb>,
    c: Argb,
)
    requires
        clustered(ps, cell, close, m),
        forall|i: int| 0 <= i < ps.len() ==> ps[i] == c,
        ps.contains(c),
    ensures
        m[c] == c,
{
    assert(assigned(ps, cell, close, m, c));
    if m[c] != c {
        let i = choose|i: int| 0 <= i < ps.len() && ps[i] == m[c];
    }
}

/// The key by which colours are visited: more frequent first, then lower
/// value.
spec fn visit_measure(ps: Seq<Argb>, c: Argb) -> nat {
    ((ps.len() - occurrences(ps, c)) * 0x1_0000_0000 + c.0) as nat
}

proof fn lemma_visit_measure(ps: Seq<Argb>, a: Argb, b: Argb)
    requires
        ranks_before(ps, a, b),
    ensures
        visit_measure(ps, a) < visit_measure(ps, b),
{
    lemma_occurrences_bound(ps, a);
    lemma_occurrences_bound(ps, b);
    let oa = occurrences(ps, a) as int;
    let ob = occurrences(ps, b) as int;
    let n = ps.len() as int;
    if oa > ob {
        assert((n - oa) * 0x1_0000_0000 + 0x1_0000_0000 <= (n - ob) * 0x1_0000_0000) by (nonlinear_arith)
            requires
                oa > ob,
        ;
    }
}

/// An answer function: `close` never answers both ways for the same pair.
pub open spec fn answers_consistently<F: Fn(Argb, Argb) -> bool>(close: F) -> bool {
    forall|a: Argb, b: Argb| !(#[trigger] call_ensures(close, (a, b), true) && call_ensures(close, (a, b), false))
}

proof fn lemma_unique_at<F: Fn(Argb, Argb) -> bool>(
    ps: Seq<Argb>,
    cell: u32,
    close: F,
    m1: Map<Argb, Argb>,
    m2: Map<Argb, Argb>,
    c: Argb,
)
    requires
        clustered(ps, cell, close, m1),
        clustered(ps, cell, close, m2),
        answers_consistently(close),
        ps.contains(c),
    ensures
        m1[c] == m2[c],
    decreases visit_measure(ps, c),
{
    assert forall|q: Argb| #[trigger] ps.contains(q) && ranks_before(ps, q, c) implies m1[q] == m2[q] by {
        lemma_visit_measure(ps, q, c);
        lemma_unique_at(ps, cell, close, m1, m2, q);
    }
    assert(assigned(ps, cell, close, m1, c));
    assert(assigned(ps, cell, close, m2, c));
    let r1 = m1[c];
    let r2 = m2[c];
    if r1 != r2 {
        if r1 == c {
            assert(m1[r2] == r2);
            assert(call_ensures(close, (c, r2), false));
        } else if r2 == c {
            assert(m2[r1] == r1);
            assert(call_ensures(close, (c, r1), false));
        } else {
            assert(m1[r2] == r2 && m2[r1] == r1);
            if searched_before(ps, cell, r1, r2) {
                assert(call_ensures(close, (c, r1), false));
            } else {
                assert(searched_before(ps, cell, r2, r1));
                assert(call_ensures(close, (c, r2), false));
            }
        }
    }
}

/// Clustering is deterministic: where `close` answers consistently, the
/// same pixels and cell width always give the same colour map, and so the
/// same image.
pub proof fn law_clustering_deterministic<F: Fn(Argb, Argb) -> bool>(
    ps: Seq<Argb>,
    cell: u32,
    close: F,
    m1: Map<Argb, Argb>,
    m2: Map<Argb, Argb>,
)
    requires
        clustered(ps, cell, close, m1),
        clustered(ps, cell, close, m2),
        answers_consistently(close),
    ensures
        forall|c: Argb| #[trigger] ps.contains(c) ==> m1[c] == m2[c],
        ps.map_values(|p: Argb| m1[p]) == ps.map_values(|p: Argb| m2[p]),
{
    assert forall|c: Argb| #[trigger] ps.contains(c) implies m1[c] == m2[c] by {
        lemma_unique_at(ps, cell, close, m1, m2, c);
    }
    let s1 = ps.map_values(|p: Argb| m1[p]);
    let s2 = ps.map_values(|p: Argb| m2[p]);
    assert forall|i: int| 0 <= i < ps.len() implies #[trigger] s1[i] == s2[i] by {
        assert(ps.contains(ps[i]));
    }
    assert(s1 =~= s2);
}

/// The colours of `ps` that are not fully transparent.
pub open spec fn visible_colours(ps: Seq<Argb>) -> Set<Argb> {
    Set::new(|c: Argb| ps.contains(c) && c.alpha() != 0)
}

/// Number of distinct non-transparent colours in an image.
pub fn distinct_colors(img: &ArgbImage) -> (n: usize)
    ensures
        visible_colours(img.pixels@).finite(),
        n == visible_colours(img.pixels@).len(),
{
    let ghost ps = img.pixels@;
    let (_counts, distinct) = count_colours(&img.pixels);
    let m = distinct.len();
    let mut n: usize = 0;
    let ghost mut seen: Set<Argb> = Set::empty();
    let mut i: usize = 0;
    while i < m
        invariant
            i <= m,
            m == distinct@.len(),
            distinct@.no_duplicates(),
            seen.finite(),
            n == seen.len(),
            n <= i,
            forall|c: Argb| #[trigger] seen.contains(c) <==> (distinct@.take(i as int).contains(c) && c.alpha() != 0),
        decreases m - i,
    {
        let c = distinct[i];
        let ghost before = distinct@.take(i as int);
        proof {
            assert(distinct@.take(i + 1) =~= before.push(c));
            let after = distinct@.take(i + 1);
            assert forall|x: Argb| #[trigger] after.contains(x) <==> before.contains(x) || x == c by {
                if after.contains(x) && x != c {
                    let j = choose|j: int| 0 <= j < after.len() && #[trigger] after[j] == x;
                    assert(before[j] == x);
                }
                if before.contains(x) {
                    let j = choose|j: int| 0 <= j < before.len() && #[trigger] before[j] == x;
                    assert(after[j] == x);
                }
                if x == c {
                    assert(after[i as int] == x);
                }
            }
        }
        if c.a() != 0 {
            proof {
                if seen.contains(c) {
                    let j = choose|j: int| 0 <= j < before.len() && #[trigger] before[j] == c;
                    assert(distinct@[j] == distinct@[i as int]);
                }
                seen = seen.insert(c);
            }
            n += 1;
        }
        i += 1;
    }
    proof {
        assert(distinct@.take(m as int) =~= distinct@);
        assert(seen =~= visible_colours(ps));
    }
    n
}

} // verus!
