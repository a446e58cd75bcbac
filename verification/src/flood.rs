//! The heuristic fill as a function of its inputs: the opaque pixels in
//! row-major order, put in seed-shuffled flood order, then flooded
//! breadth-first; a pixel to be filled takes the color of the cell that
//! first reaches it.
use crate::generative::{at, fill_order, fills};
use vstd::prelude::*;

verus! {

/// A flood in progress: the pixel buffer, the reached cells, the queue of
/// reached cells in the order they were reached, and whether anything was
/// filled.
pub type FloodView = (Seq<u8>, Seq<bool>, Seq<(usize, usize)>, bool);

/// Reaching cell `(nx, ny)` with the color `(r, g, b)`: a cell not yet
/// reached is marked and queued, and, when it is to be filled, takes the
/// color and becomes opaque.
pub open spec fn flood_visit(s: FloodView, w: int, nx: int, ny: int, r: u8, g: u8, b: u8) -> FloodView {
    let idx = at(w, nx, ny);
    if s.1[idx] {
        s
    } else {
        let fill = s.0[4 * idx + 3] < 255;
        (
            if fill {
                s.0.update(4 * idx, r).update(4 * idx + 1, g).update(4 * idx + 2, b).update(4 * idx + 3, 255u8)
            } else {
                s.0
            },
            s.1.update(idx, true),
            s.2.push((nx as usize, ny as usize)),
            s.3 || fill,
        )
    }
}

/// Expanding the queued cell at `head`: its left, right, upper and lower
/// neighbors, in that order, are reached with its color.
pub open spec fn flood_expand(s: FloodView, w: int, h: int, head: int) -> FloodView {
    let x = s.2[head].0 as int;
    let y = s.2[head].1 as int;
    let src = 4 * at(w, x, y);
    let r = s.0[src];
    let g = s.0[src + 1];
    let b = s.0[src + 2];
    let s1 = if x > 0 { flood_visit(s, w, x - 1, y, r, g, b) } else { s };
    let s2 = if x + 1 < w { flood_visit(s1, w, x + 1, y, r, g, b) } else { s1 };
    let s3 = if y > 0 { flood_visit(s2, w, x, y - 1, r, g, b) } else { s2 };
    if y + 1 < h { flood_visit(s3, w, x, y + 1, r, g, b) } else { s3 }
}

/// Expanding the queue from `head` on, at most `fuel` cells.
pub open spec fn flood_run(s: FloodView, w: int, h: int, head: int, fuel: nat) -> FloodView
    decreases fuel,
{
    if fuel == 0 || head < 0 || head >= s.2.len() {
        s
    } else {
        flood_run(flood_expand(s, w, h, head), w, h, head + 1, (fuel - 1) as nat)
    }
}

/// Reaching the first `k` of `sources`, in their order, each with its own
/// current color.
pub open spec fn flood_seed(s: FloodView, w: int, sources: Seq<(usize, usize)>, k: nat) -> FloodView
    decreases k,
{
    if k == 0 {
        s
    } else {
        let s0 = flood_seed(s, w, sources, (k - 1) as nat);
        let x = sources[k - 1].0 as int;
        let y = sources[k - 1].1 as int;
        let i = 4 * at(w, x, y);
        flood_visit(s0, w, x, y, s0.0[i], s0.0[i + 1], s0.0[i + 2])
    }
}

/// The pixels after flooding a `w` by `h` buffer from `sources`: every
/// source is reached in order, then the queue is expanded breadth-first
/// until it runs out (it never holds more than `w * h` cells).
pub open spec fn flood_pixels(p: Seq<u8>, w: int, h: int, sources: Seq<(usize, usize)>) -> Seq<u8> {
    flood_run(flood_seed(flood_start(p, w * h), w, sources, sources.len()), w, h, 0, (w * h) as nat).0
}

/// A flood before any cell of the `n` cells is reached.
pub open spec fn flood_start(p: Seq<u8>, n: int) -> FloodView {
    (p, Seq::new(n as nat, |i: int| false), Seq::empty(), false)
}

/// The `(x, y)` position of pixel `i` in a row-major grid of width `w`.
pub open spec fn pos_of(w: int, i: int) -> (usize, usize) {
    ((i % w) as usize, (i / w) as usize)
}

/// The opaque pixels among the first `k` of a buffer of width `w`, as
/// `(x, y)` positions in row-major order.
pub open spec fn opaque_upto(p: Seq<u8>, w: int, k: int) -> Seq<(usize, usize)>
    decreases k,
{
    if k <= 0 {
        Seq::empty()
    } else {
        let prev = opaque_upto(p, w, k - 1);
        let i = k - 1;
        if p[4 * i + 3] == 255 {
            prev.push(pos_of(w, i))
        } else {
            prev
        }
    }
}

/// `t` holds the positions of `c` put in non-decreasing [`fill_order`]
/// under `seed`, positions of equal order keeping their order in `c`: what
/// a stable sort by that key gives.
pub open spec fn fill_order_sorted(c: Seq<(usize, usize)>, t: Seq<(usize, usize)>, seed: u64) -> bool {
    &&& t.to_multiset() == c.to_multiset()
    &&& forall|i: int, j: int|
        0 <= i <= j < t.len() ==> fill_order(t[i].0, t[i].1, seed) <= fill_order(t[j].0, t[j].1, seed)
    &&& forall|i: int, j: int|
        0 <= i < j < t.len() && fill_order(t[i].0, t[i].1, seed) == fill_order(t[j].0, t[j].1, seed)
            ==> exists|a: int, b: int| 0 <= a < b < c.len() && c[a] == t[i] && c[b] == t[j]
}

/// The opaque pixels of a `w` by `h` buffer in the order the flood starts
/// from them: row-major order, stably sorted by [`fill_order`] under
/// `seed`. Such an order exists (the stable sort that the fill runs makes
/// one) and is unique: see [`lemma_fill_sources_unique`].
pub open spec fn fill_sources(p: Seq<u8>, w: int, h: int, seed: u64) -> Seq<(usize, usize)> {
    choose|t: Seq<(usize, usize)>| #[trigger] fill_order_sorted(opaque_upto(p, w, w * h), t, seed)
}

/// The buffer that the heuristic fill leaves for a `width` by `height`
/// frame holding `p` and for `seed`: unchanged unless [`fills`] holds, and
/// otherwise the breadth-first flood from its opaque pixels in
/// [`fill_sources`] order.
pub open spec fn heuristic_fill(p: Seq<u8>, width: u32, height: u32, seed: u64) -> Seq<u8> {
    if fills(width, height, p) {
        flood_pixels(p, width as int, height as int, fill_sources(p, width as int, height as int, seed))
    } else {
        p
    }
}

/// Where `e` stands in `c` (meaningful for an element of a sequence without
/// duplicates).
pub open spec fn rank_in(c: Seq<(usize, usize)>, e: (usize, usize)) -> int {
    choose|a: int| 0 <= a < c.len() && c[a] == e
}

/// The strict order in which a stable sort by [`fill_order`] puts the
/// elements of `c`: by key, then by place in `c`.
pub open spec fn flood_before(c: Seq<(usize, usize)>, seed: u64, e1: (usize, usize), e2: (usize, usize)) -> bool {
    fill_order(e1.0, e1.1, seed) < fill_order(e2.0, e2.1, seed) || (fill_order(e1.0, e1.1, seed) == fill_order(
        e2.0,
        e2.1,
        seed,
    ) && rank_in(c, e1) < rank_in(c, e2))
}

proof fn lemma_strictly_ordered(c: Seq<(usize, usize)>, t: Seq<(usize, usize)>, seed: u64)
    requires
        c.no_duplicates(),
        fill_order_sorted(c, t, seed),
    ensures
        forall|i: int, j: int| 0 <= i < j < t.len() ==> flood_before(c, seed, #[trigger] t[i], #[trigger] t[j]),
{
    assert forall|i: int, j: int| 0 <= i < j < t.len() implies flood_before(c, seed, #[trigger] t[i], #[trigger] t[j]) by {
        if fill_order(t[i].0, t[i].1, seed) == fill_order(t[j].0, t[j].1, seed) {
            let (a, b) = choose|a: int, b: int| 0 <= a < b < c.len() && c[a] == t[i] && c[b] == t[j];
            let ra = rank_in(c, t[i]);
            let rb = rank_in(c, t[j]);
            assert(0 <= ra < c.len() && c[ra] == t[i]);
            assert(0 <= rb < c.len() && c[rb] == t[j]);
            assert(ra == a);
            assert(rb == b);
        }
    }
}

proof fn lemma_ordered_unique(c: Seq<(usize, usize)>, seed: u64, t1: Seq<(usize, usize)>, t2: Seq<(usize, usize)>)
    requires
        t1.to_multiset() == t2.to_multiset(),
        forall|i: int, j: int| 0 <= i < j < t1.len() ==> flood_before(c, seed, #[trigger] t1[i], #[trigger] t1[j]),
        forall|i: int, j: int| 0 <= i < j < t2.len() ==> flood_before(c, seed, #[trigger] t2[i], #[trigger] t2[j]),
    ensures
        t1 == t2,
    decreases t1.len(),
{
    t1.to_multiset_ensures();
    t2.to_multiset_ensures();
    if t1.len() == 0 {
        assert(t1 =~= t2);
    } else {
        assert(t1.contains(t1[0]));
        assert(t2.to_multiset().count(t1[0]) > 0);
        assert(t2.contains(t1[0]));
        let j = choose|j: int| 0 <= j < t2.len() && t2[j] == t1[0];
        assert(t2.contains(t2[0]));
        assert(t1.to_multiset().count(t2[0]) > 0);
        assert(t1.contains(t2[0]));
        let i = choose|i: int| 0 <= i < t1.len() && t1[i] == t2[0];
        if j > 0 {
            assert(flood_before(c, seed, t2[0], t2[j]));
            if i > 0 {
                assert(flood_before(c, seed, t1[0], t1[i]));
            }
        }
        assert(t1[0] == t2[0]);
        let d1 = t1.remove(0);
        let d2 = t2.remove(0);
        assert(d1.to_multiset() == d2.to_multiset());
        assert forall|a: int, b: int| 0 <= a < b < d1.len() implies flood_before(c, seed, #[trigger] d1[a], #[trigger] d1[b]) by {
            assert(d1[a] == t1[a + 1] && d1[b] == t1[b + 1]);
        }
        assert forall|a: int, b: int| 0 <= a < b < d2.len() implies flood_before(c, seed, #[trigger] d2[a], #[trigger] d2[b]) by {
            assert(d2[a] == t2[a + 1] && d2[b] == t2[b + 1]);
        }
        lemma_ordered_unique(c, seed, d1, d2);
        assert forall|k: int| 0 <= k < t1.len() implies t1[k] == t2[k] by {
            if k > 0 {
                assert(t1[k] == d1[k - 1]);
                assert(t2[k] == d2[k - 1]);
            }
        }
        assert(t1 =~= t2);
    }
}

/// A stable sort by [`fill_order`] of a sequence without duplicates has
/// one result: any two orders that meet [`fill_order_sorted`] are equal.
pub proof fn lemma_fill_sources_unique(c: Seq<(usize, usize)>, seed: u64, t1: Seq<(usize, usize)>, t2: Seq<(usize, usize)>)
    requires
        c.no_duplicates(),
        fill_order_sorted(c, t1, seed),
        fill_order_sorted(c, t2, seed),
    ensures
        t1 == t2,
{
    lemma_strictly_ordered(c, t1, seed);
    lemma_strictly_ordered(c, t2, seed);
    lemma_ordered_unique(c, seed, t1, t2);
}

/// The pixel whose position [`opaque_upto`] lists at `m`.
spec fn entry_pixel(p: Seq<u8>, w: int, k: int, m: int) -> int
    decreases k,
{
    if k <= 0 {
        0
    } else if p[4 * (k - 1) + 3] == 255 && m == opaque_upto(p, w, k - 1).len() {
        k - 1
    } else {
        entry_pixel(p, w, k - 1, m)
    }
}

/// Each position that [`opaque_upto`] lists is that of an opaque pixel
/// before `k`.
proof fn lemma_opaque_entry(p: Seq<u8>, w: int, k: int, m: int)
    requires
        0 <= m < opaque_upto(p, w, k).len(),
    ensures
        0 <= entry_pixel(p, w, k, m) < k,
        p[4 * entry_pixel(p, w, k, m) + 3] == 255,
        opaque_upto(p, w, k)[m] == pos_of(w, entry_pixel(p, w, k, m)),
    decreases k,
{
    if !(p[4 * (k - 1) + 3] == 255 && m == opaque_upto(p, w, k - 1).len()) {
        lemma_opaque_entry(p, w, k - 1, m);
    }
}

/// Entries of [`opaque_upto`] come from strictly increasing pixels.
proof fn lemma_entry_order(p: Seq<u8>, w: int, k: int, m1: int, m2: int)
    requires
        0 <= m1 < m2 < opaque_upto(p, w, k).len(),
    ensures
        entry_pixel(p, w, k, m1) < entry_pixel(p, w, k, m2),
    decreases k,
{
    if p[4 * (k - 1) + 3] == 255 && m2 == opaque_upto(p, w, k - 1).len() {
        lemma_opaque_entry(p, w, k - 1, m1);
    } else {
        lemma_entry_order(p, w, k - 1, m1, m2);
    }
}

/// No position is listed twice by [`opaque_upto`].
pub proof fn lemma_opaque_upto_distinct(p: Seq<u8>, w: int, k: int)
    requires
        0 < w <= usize::MAX,
        k <= usize::MAX,
    ensures
        opaque_upto(p, w, k).no_duplicates(),
{
    let s = opaque_upto(p, w, k);
    assert forall|m1: int, m2: int| 0 <= m1 < s.len() && 0 <= m2 < s.len() && m1 != m2 implies s[m1] != s[m2] by {
        lemma_opaque_entry(p, w, k, m1);
        lemma_opaque_entry(p, w, k, m2);
        if m1 < m2 {
            lemma_entry_order(p, w, k, m1, m2);
        } else {
            lemma_entry_order(p, w, k, m2, m1);
        }
        let j1 = entry_pixel(p, w, k, m1);
        let j2 = entry_pixel(p, w, k, m2);
        if s[m1] == s[m2] {
            vstd::arithmetic::div_mod::lemma_fundamental_div_mod(j1, w);
            vstd::arithmetic::div_mod::lemma_fundamental_div_mod(j2, w);
            vstd::arithmetic::div_mod::lemma_div_pos_is_pos(j1, w);
            vstd::arithmetic::div_mod::lemma_div_pos_is_pos(j2, w);
            vstd::arithmetic::div_mod::lemma_div_is_ordered_by_denominator(j1, 1, w);
            vstd::arithmetic::div_mod::lemma_div_is_ordered_by_denominator(j2, 1, w);
            vstd::arithmetic::div_mod::lemma_mod_pos_bound(j1, w);
            vstd::arithmetic::div_mod::lemma_mod_pos_bound(j2, w);
            assert(j1 % w == j2 % w);
            assert(j1 / w == j2 / w);
        }
    }
}

} // verus!
