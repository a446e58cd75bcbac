//! Heuristic auto-fill of transparent pixels (a multi-source breadth-first
//! flood from the opaque pixels), the canvas expand built on it, and the
//! exact-identity result cache that keeps a repeated render from running
//! the flood again.
use crate::cache::copy_bytes;
use crate::frame::{CoreError, ImageFrame};
use crate::hashing::{blake3_hex, blake3_hex_digest, le_i32, le_u32, le_u64, lemma_le_u64_injective, push_byte, push_bytes, push_i32_le, push_str, push_u32_le, push_u64_le, utf8};
use crate::byte_total::{bytes_total, lemma_bytes_total_remove};
use crate::flood::{fill_order_sorted, fill_sources, flood_expand, flood_pixels, flood_run, flood_seed, flood_start, flood_visit, heuristic_fill, lemma_fill_sources_unique, lemma_opaque_upto_distinct, opaque_upto, pos_of, FloodView};
use crate::preview_cache::{frame_bytes, frame_view, LruPreviewCache};
use crate::raster::{cell, lemma_cell_bounds, lemma_cell_injective};
use vstd::prelude::*;

verus! {

/// Whether an RGBA pixel with alpha `a` is to be filled: it is not fully
/// opaque.
pub open spec fn is_fillable(a: u8) -> bool {
    a < 255
}

/// Whether pixel `i` of an RGBA8 buffer is to be filled.
pub open spec fn fillable_at(p: Seq<u8>, i: int) -> bool {
    is_fillable(p[4 * i + 3])
}

/// Whether some whole pixel of the buffer is to be filled.
pub open spec fn has_fillable(p: Seq<u8>) -> bool {
    exists|i: int| 0 <= i < p.len() / 4 && #[trigger] fillable_at(p, i)
}

/// Whether some whole pixel of the buffer is an opaque source.
pub open spec fn has_source(p: Seq<u8>) -> bool {
    exists|i: int| 0 <= i < p.len() / 4 && !#[trigger] fillable_at(p, i)
}

/// Whether `(r, g, b)` is the color of one of the first `n` pixels of `p`
/// that is an opaque source.
pub open spec fn source_color(p: Seq<u8>, n: int, r: u8, g: u8, b: u8) -> bool {
    exists|j: int| 0 <= j < n && !#[trigger] fillable_at(p, j) && p[4 * j] == r && p[4 * j + 1] == g && p[4 * j + 2] == b
}

/// Whether pixel `i` holds the same four bytes in `a` and `b`.
pub open spec fn same_pixel(a: Seq<u8>, b: Seq<u8>, i: int) -> bool {
    &&& a[4 * i] == b[4 * i]
    &&& a[4 * i + 1] == b[4 * i + 1]
    &&& a[4 * i + 2] == b[4 * i + 2]
    &&& a[4 * i + 3] == b[4 * i + 3]
}

/// Whether any pixel of `frame` is transparent (alpha below 255), and so
/// would be filled.
pub fn has_transparent_pixels(frame: &ImageFrame) -> (found: bool)
    ensures
        found == has_fillable(frame.pixels@),
{
    let len = frame.pixels.len();
    let count = len / 4;
    let mut i: usize = 0;
    while i < count
        invariant
            len == frame.pixels@.len(),
            count == frame.pixels@.len() / 4,
            i <= count,
            forall|k: int| 0 <= k < i ==> !#[trigger] fillable_at(frame.pixels@, k),
        decreases count - i,
    {
        proof {
            assert(i * 4 + 3 < len) by (nonlinear_arith)
                requires
                    i < count,
                    count == len / 4,
            ;
        }
        let base = i * 4;
        let p = &frame.pixels;
        if p[base + 3] < 255 {
            assert(fillable_at(frame.pixels@, i as int));
            return true;
        }
        i += 1;
    }
    false
}

/// The seed-shuffled flood order of the opaque pixel `(x, y)`.
pub open spec fn fill_order(x: usize, y: usize, seed: u64) -> u64 {
    let k0 = vstd::wrapping::u64_specs::wrapping_mul(x as u64, 73856093u64) ^ vstd::wrapping::u64_specs::wrapping_mul(
        y as u64,
        19349663u64,
    ) ^ seed;
    let k1 = vstd::wrapping::u64_specs::wrapping_add(k0, 0x9e3779b97f4a7c15u64);
    let k2 = vstd::wrapping::u64_specs::wrapping_mul(k1 ^ (k1 >> 30u64), 0xbf58476d1ce4e5b9u64);
    let k3 = vstd::wrapping::u64_specs::wrapping_mul(k2 ^ (k2 >> 27u64), 0x94d049bb133111ebu64);
    k3 ^ (k3 >> 31u64)
}

/// The seed-shuffled flood order of the opaque pixel `(x, y)`.
pub fn fill_order_key(x: usize, y: usize, seed: u64) -> (key: u64)
    ensures
        key == fill_order(x, y, seed),
{
    let mut k = (x as u64).wrapping_mul(73856093) ^ (y as u64).wrapping_mul(19349663) ^ seed;
    k = k.wrapping_add(0x9e3779b97f4a7c15);
    k = (k ^ (k >> 30)).wrapping_mul(0xbf58476d1ce4e5b9);
    k = (k ^ (k >> 27)).wrapping_mul(0x94d049bb133111eb);
    k ^ (k >> 31)
}

/// Sorts `positions` with the standard library's stable
/// `slice::sort_by_key`, keyed by [`fill_order_key`]. The contract states
/// that the result holds the same positions, in non-decreasing key order,
/// and that positions with equal keys keep the order they had; it does not
/// restate how the sort proceeds.
#[verifier::external_body]
fn sort_by_fill_order(positions: &mut Vec<(usize, usize)>, seed: u64)
    ensures
        final(positions)@.to_multiset() == old(positions)@.to_multiset(),
        forall|i: int, j: int|
            0 <= i <= j < final(positions)@.len() ==> fill_order(final(positions)@[i].0, final(positions)@[i].1, seed)
                <= fill_order(final(positions)@[j].0, final(positions)@[j].1, seed),
        forall|i: int, j: int|
            0 <= i < j < final(positions)@.len() && fill_order(final(positions)@[i].0, final(positions)@[i].1, seed)
                == fill_order(final(positions)@[j].0, final(positions)@[j].1, seed) ==> exists|a: int, b: int|
                0 <= a < b < old(positions)@.len() && old(positions)@[a] == final(positions)@[i] && old(positions)@[b]
                    == final(positions)@[j],
{
    positions.sort_by_key(|p| fill_order_key(p.0, p.1, seed));
}

/// The number of `false` entries.
pub open spec fn count_false(s: Seq<bool>) -> nat
    decreases s.len(),
{
    if s.len() == 0 {
        0
    } else {
        count_false(s.drop_last()) + if s.last() { 0nat } else { 1nat }
    }
}

pub proof fn lemma_count_false_set(s: Seq<bool>, i: int)
    requires
        0 <= i < s.len(),
        !s[i],
    ensures
        count_false(s.update(i, true)) + 1 == count_false(s),
    decreases s.len(),
{
    let u = s.update(i, true);
    if i == s.len() - 1 {
        assert(u.drop_last() =~= s.drop_last());
    } else {
        assert(u.drop_last() =~= s.drop_last().update(i, true));
        lemma_count_false_set(s.drop_last(), i);
    }
}

/// A sequence of `n` entries, all `false`, counts `n`.
proof fn lemma_count_false_none(n: nat)
    ensures
        count_false(Seq::new(n, |i: int| false)) == n,
    decreases n,
{
    if n > 0 {
        assert(Seq::new(n, |i: int| false).drop_last() =~= Seq::new((n - 1) as nat, |i: int| false));
        lemma_count_false_none((n - 1) as nat);
    }
}

/// Index of pixel `(x, y)` in a row-major grid of width `w`.
pub open spec fn at(w: int, x: int, y: int) -> int {
    y * w + x
}

/// Whether every grid neighbor of `(x, y)` is marked in `marked`.
pub open spec fn neighbors_marked(marked: Seq<bool>, w: int, h: int, x: int, y: int) -> bool {
    &&& x > 0 ==> marked[at(w, x - 1, y)]
    &&& x + 1 < w ==> marked[at(w, x + 1, y)]
    &&& y > 0 ==> marked[at(w, x, y - 1)]
    &&& y + 1 < h ==> marked[at(w, x, y + 1)]
}

/// Manhattan distance between two grid cells.
pub open spec fn manhattan(x1: int, y1: int, x2: int, y2: int) -> int {
    (if x1 >= x2 { x1 - x2 } else { x2 - x1 }) + (if y1 >= y2 { y1 - y2 } else { y2 - y1 })
}

/// `(a, b)` is an opaque cell of the `w` by `h` grid of `p`.
pub open spec fn source_cell(p: Seq<u8>, w: int, h: int, a: int, b: int) -> bool {
    0 <= a < w && 0 <= b < h && !fillable_at(p, at(w, a, b))
}

/// Every source cell lies at least `d` away from `(x, y)`.
pub open spec fn sources_at_least(p: Seq<u8>, w: int, h: int, x: int, y: int, d: int) -> bool {
    forall|a: int, b: int| #[trigger] source_cell(p, w, h, a, b) ==> manhattan(x, y, a, b) >= d
}

/// The nearest source cell to `(x, y)` lies exactly `d` away.
pub open spec fn nearest_at(p: Seq<u8>, w: int, h: int, x: int, y: int, d: int) -> bool {
    &&& exists|a: int, b: int| #[trigger] source_cell(p, w, h, a, b) && manhattan(x, y, a, b) == d
    &&& sources_at_least(p, w, h, x, y, d)
}

/// `(r, g, b)` is the color of a source cell exactly `d` away from `(x, y)`.
pub open spec fn color_at_distance(p: Seq<u8>, w: int, h: int, x: int, y: int, d: int, r: u8, g: u8, b: u8) -> bool {
    exists|a: int, c: int|
        #[trigger] source_cell(p, w, h, a, c) && manhattan(x, y, a, c) == d && p[4 * at(w, a, c)] == r && p[4 * at(w, a, c)
            + 1] == g && p[4 * at(w, a, c) + 2] == b
}

/// `(r, g, b)` is the color of a source cell nearest to `(x, y)`: no source
/// cell lies closer (in Manhattan distance) than one of that color.
pub open spec fn nearest_color(p: Seq<u8>, w: int, h: int, x: int, y: int, r: u8, g: u8, b: u8) -> bool {
    exists|a: int, c: int|
        #[trigger] source_cell(p, w, h, a, c) && p[4 * at(w, a, c)] == r && p[4 * at(w, a, c) + 1] == g && p[4 * at(w, a, c)
            + 2] == b && sources_at_least(p, w, h, x, y, manhattan(x, y, a, c))
}

/// The breadth-first part of the flood state: `lev` holds the level of each
/// queued cell, which is its distance to the nearest source; levels never
/// decrease along the queue; every reached cell holds a nearest source's
/// color.
#[verifier::opaque]
spec fn nearest_state(
    old: Seq<u8>,
    cur: Seq<u8>,
    visited: Seq<bool>,
    queue: Seq<(usize, usize)>,
    lev: Seq<int>,
    w: int,
    h: int,
) -> bool {
    &&& lev.len() == queue.len()
    &&& forall|k: int| 0 <= k < queue.len() ==> nearest_at(old, w, h, (#[trigger] queue[k]).0 as int, queue[k].1 as int, lev[k])
    &&& forall|k1: int, k2: int| 0 <= k1 <= k2 < lev.len() ==> #[trigger] lev[k1] <= #[trigger] lev[k2]
    &&& forall|x: int, y: int|
        0 <= x < w && 0 <= y < h && #[trigger] visited[at(w, x, y)] ==> nearest_color(
            old,
            w,
            h,
            x,
            y,
            cur[4 * at(w, x, y)],
            cur[4 * at(w, x, y) + 1],
            cur[4 * at(w, x, y) + 2],
        )
}

proof fn lemma_at_bounds(w: int, h: int, x: int, y: int)
    requires
        0 <= x < w,
        0 <= y < h,
    ensures
        0 <= at(w, x, y) < w * h,
        4 * at(w, x, y) + 3 < 4 * (w * h),
{
    lemma_cell_bounds(w, h, 1, x, y, 0);
}

proof fn lemma_at_injective(w: int, x1: int, y1: int, x2: int, y2: int)
    requires
        0 <= x1 < w,
        0 <= x2 < w,
        0 <= y1,
        0 <= y2,
        at(w, x1, y1) == at(w, x2, y2),
    ensures
        x1 == x2 && y1 == y2,
{
    assert(cell(w, 1, x1, y1, 0) == at(w, x1, y1));
    assert(cell(w, 1, x2, y2, 0) == at(w, x2, y2));
    lemma_cell_injective(w, 1, x1, y1, 0, x2, y2, 0);
}

proof fn lemma_flood_row(marked: Seq<bool>, w: int, h: int, x0: int, y: int, x: int)
    requires
        marked.len() == w * h,
        forall|a: int, b: int| 0 <= a < w && 0 <= b < h && #[trigger] marked[at(w, a, b)] ==> neighbors_marked(marked, w, h, a, b),
        0 <= x0 < w,
        0 <= y < h,
        0 <= x < w,
        marked[at(w, x0, y)],
    ensures
        marked[at(w, x, y)],
    decreases if x >= x0 { x - x0 } else { x0 - x },
{
    if x > x0 {
        lemma_flood_row(marked, w, h, x0, y, x - 1);
        assert(neighbors_marked(marked, w, h, x - 1, y));
    } else if x < x0 {
        lemma_flood_row(marked, w, h, x0, y, x + 1);
        assert(neighbors_marked(marked, w, h, x + 1, y));
    }
}

proof fn lemma_flood_column(marked: Seq<bool>, w: int, h: int, x: int, y0: int, y: int)
    requires
        marked.len() == w * h,
        forall|a: int, b: int| 0 <= a < w && 0 <= b < h && #[trigger] marked[at(w, a, b)] ==> neighbors_marked(marked, w, h, a, b),
        0 <= x < w,
        0 <= y0 < h,
        0 <= y < h,
        marked[at(w, x, y0)],
    ensures
        marked[at(w, x, y)],
    decreases if y >= y0 { y - y0 } else { y0 - y },
{
    if y > y0 {
        lemma_flood_column(marked, w, h, x, y0, y - 1);
        assert(neighbors_marked(marked, w, h, x, y - 1));
    } else if y < y0 {
        lemma_flood_column(marked, w, h, x, y0, y + 1);
        assert(neighbors_marked(marked, w, h, x, y + 1));
    }
}

proof fn lemma_index_coords(i: int, w: int, h: int)
    requires
        0 <= i < w * h,
        w > 0,
    ensures
        0 <= i % w < w,
        0 <= i / w < h,
        at(w, i % w, i / w) == i,
{
    vstd::arithmetic::div_mod::lemma_fundamental_div_mod(i, w);
    let x = i % w;
    let y = i / w;
    assert(0 <= x < w && 0 <= y < h) by (nonlinear_arith)
        requires
            i == w * (i / w) + i % w,
            x == i % w,
            y == i / w,
            0 <= i < w * h,
            w > 0,
    ;
    assert(at(w, x, y) == i) by (nonlinear_arith)
        requires
            i == w * (i / w) + i % w,
            x == i % w,
            y == i / w,
    ;
}

/// A marking of the grid that is closed under neighbors and marks one cell
/// marks every cell.
proof fn lemma_flood_covers(marked: Seq<bool>, w: int, h: int, x0: int, y0: int)
    requires
        marked.len() == w * h,
        forall|a: int, b: int| 0 <= a < w && 0 <= b < h && #[trigger] marked[at(w, a, b)] ==> neighbors_marked(marked, w, h, a, b),
        0 <= x0 < w,
        0 <= y0 < h,
        marked[at(w, x0, y0)],
    ensures
        forall|i: int| 0 <= i < w * h ==> #[trigger] marked[i],
{
    assert forall|i: int| 0 <= i < w * h implies #[trigger] marked[i] by {
        lemma_index_coords(i, w, h);
        let x = i % w;
        let y = i / w;
        lemma_flood_row(marked, w, h, x0, y0, x);
        lemma_flood_column(marked, w, h, x, y0, y);
    }
}

/// The state of the flood over a `w` by `h` grid: `old` the buffer before
/// the flood, `cur` the buffer now, `visited` the cells reached, `queue` the
/// cells reached in order and `head` the number of them already expanded.
#[verifier::opaque]
spec fn flood_state(
    old: Seq<u8>,
    cur: Seq<u8>,
    visited: Seq<bool>,
    queue: Seq<(usize, usize)>,
    head: int,
    filled: bool,
    w: int,
    h: int,
) -> bool {
    let n = w * h;
    &&& w > 0 && h > 0
    &&& cur.len() == 4 * n && old.len() == 4 * n && visited.len() == n
    &&& 0 <= head <= queue.len()
    &&& forall|i: int| 0 <= i < n && #[trigger] visited[i] ==> !fillable_at(cur, i) && source_color(old, n, cur[4 * i], cur[4 * i + 1], cur[4 * i + 2])
    &&& forall|i: int| 0 <= i < n && !#[trigger] visited[i] ==> same_pixel(cur, old, i)
    &&& forall|i: int| 0 <= i < n && !#[trigger] fillable_at(old, i) ==> same_pixel(cur, old, i)
    &&& forall|i: int| 0 <= i < n && !#[trigger] same_pixel(cur, old, i) ==> cur[4 * i + 3] == 255 && source_color(old, n, cur[4 * i], cur[4 * i + 1], cur[4 * i + 2])
    &&& forall|i: int| 0 <= i < n && #[trigger] visited[i] && fillable_at(old, i) ==> filled
    &&& filled ==> exists|i: int| 0 <= i < n && #[trigger] fillable_at(old, i)
    &&& forall|k: int| 0 <= k < queue.len() ==> (#[trigger] queue[k]).0 < w && queue[k].1 < h && visited[at(w, queue[k].0 as int, queue[k].1 as int)]
    &&& forall|x: int, y: int| 0 <= x < w && 0 <= y < h && #[trigger] visited[at(w, x, y)] ==> exists|k: int| 0 <= k < queue.len() && #[trigger] queue[k] == (x as usize, y as usize)
    &&& forall|k: int| 0 <= k < head ==> neighbors_marked(visited, w, h, (#[trigger] queue[k]).0 as int, queue[k].1 as int)
}

/// What the flood state says of the queued cell at `k`.
proof fn lemma_flood_queued(
    old_px: Seq<u8>,
    cur: Seq<u8>,
    vis: Seq<bool>,
    q: Seq<(usize, usize)>,
    head: int,
    filled: bool,
    w: int,
    h: int,
    k: int,
)
    requires
        flood_state(old_px, cur, vis, q, head, filled, w, h),
        0 <= k < q.len(),
    ensures
        w > 0 && h > 0,
        cur.len() == 4 * (w * h),
        vis.len() == w * h,
        q[k].0 < w && q[k].1 < h,
        vis[at(w, q[k].0 as int, q[k].1 as int)],
        k < head ==> neighbors_marked(vis, w, h, q[k].0 as int, q[k].1 as int),
{
    reveal(flood_state);
}

/// Expanding the cell at `head` moves the flood state past it.
proof fn lemma_flood_advance(
    old_px: Seq<u8>,
    cur: Seq<u8>,
    vis: Seq<bool>,
    q: Seq<(usize, usize)>,
    head: int,
    filled: bool,
    w: int,
    h: int,
)
    requires
        flood_state(old_px, cur, vis, q, head, filled, w, h),
        0 <= head < q.len(),
        neighbors_marked(vis, w, h, q[head].0 as int, q[head].1 as int),
    ensures
        flood_state(old_px, cur, vis, q, head + 1, filled, w, h),
{
    reveal(flood_state);
}

/// What the breadth-first state says of the queued cell at `k`.
proof fn lemma_nearest_queued(
    old_px: Seq<u8>,
    cur: Seq<u8>,
    vis: Seq<bool>,
    q: Seq<(usize, usize)>,
    lev: Seq<int>,
    w: int,
    h: int,
    k: int,
)
    requires
        nearest_state(old_px, cur, vis, q, lev, w, h),
        0 <= k < q.len(),
        q[k].0 < w && q[k].1 < h,
        vis[at(w, q[k].0 as int, q[k].1 as int)],
    ensures
        lev.len() == q.len(),
        nearest_at(old_px, w, h, q[k].0 as int, q[k].1 as int, lev[k]),
        nearest_color(
            old_px,
            w,
            h,
            q[k].0 as int,
            q[k].1 as int,
            cur[4 * at(w, q[k].0 as int, q[k].1 as int)],
            cur[4 * at(w, q[k].0 as int, q[k].1 as int) + 1],
            cur[4 * at(w, q[k].0 as int, q[k].1 as int) + 2],
        ),
        forall|j: int| k <= j < lev.len() ==> lev[k] <= #[trigger] lev[j],
        forall|j: int| 0 <= j <= k ==> #[trigger] lev[j] <= lev[k],
{
    reveal(nearest_state);
}

/// Every cell within distance `d` of a source cell is reached.
spec fn reach_covers(old: Seq<u8>, w: int, h: int, visited: Seq<bool>, d: int) -> bool {
    forall|a: int, b: int, s1: int, s2: int|
        #![trigger visited[at(w, a, b)], source_cell(old, w, h, s1, s2)]
        0 <= a < w && 0 <= b < h && source_cell(old, w, h, s1, s2) && manhattan(a, b, s1, s2) <= d ==> visited[at(w, a, b)]
}

/// An unreached neighbor of a cell at level `d` lies at level `d + 1`, and
/// the color of the cell is that of a source at that distance from it.
proof fn lemma_neighbor_level(
    old: Seq<u8>,
    w: int,
    h: int,
    visited: Seq<bool>,
    x: int,
    y: int,
    d: int,
    qx: int,
    qy: int,
    r: u8,
    g: u8,
    b: u8,
)
    requires
        0 <= qx < w,
        0 <= qy < h,
        manhattan(x, y, qx, qy) == 1,
        nearest_at(old, w, h, x, y, d),
        nearest_color(old, w, h, x, y, r, g, b),
        reach_covers(old, w, h, visited, d),
        !visited[at(w, qx, qy)],
    ensures
        nearest_at(old, w, h, qx, qy, d + 1),
        color_at_distance(old, w, h, qx, qy, d + 1, r, g, b),
{
    assert forall|a: int, c: int| #[trigger] source_cell(old, w, h, a, c) implies manhattan(qx, qy, a, c) >= d + 1 by {
        if manhattan(qx, qy, a, c) <= d {
            assert(visited[at(w, qx, qy)]);
        }
    }
    let (a0, c0) = choose|a: int, c: int|
        #[trigger] source_cell(old, w, h, a, c) && old[4 * at(w, a, c)] == r && old[4 * at(w, a, c) + 1] == g && old[4 * at(w, a, c)
            + 2] == b && sources_at_least(old, w, h, x, y, manhattan(x, y, a, c));
    let (a1, c1) = choose|a: int, c: int| #[trigger] source_cell(old, w, h, a, c) && manhattan(x, y, a, c) == d;
    assert(manhattan(x, y, a0, c0) <= manhattan(x, y, a1, c1));
    assert(manhattan(x, y, a0, c0) >= d);
    assert(source_cell(old, w, h, a0, c0));
    assert(manhattan(qx, qy, a0, c0) == d + 1);
}

/// A cell at distance `d >= 1` from a source cell has a grid neighbor one
/// step closer to it.
proof fn lemma_step_toward(w: int, h: int, a: int, b: int, s1: int, s2: int) -> (r: (int, int))
    requires
        0 <= a < w,
        0 <= b < h,
        0 <= s1 < w,
        0 <= s2 < h,
        manhattan(a, b, s1, s2) >= 1,
    ensures
        0 <= r.0 < w,
        0 <= r.1 < h,
        manhattan(r.0, r.1, s1, s2) == manhattan(a, b, s1, s2) - 1,
        (a == r.0 - 1 && b == r.1 && r.0 > 0) || (a == r.0 + 1 && b == r.1 && r.0 + 1 < w) || (a == r.0 && b == r.1 - 1
            && r.1 > 0) || (a == r.0 && b == r.1 + 1 && r.1 + 1 < h),
{
    if a > s1 {
        (a - 1, b)
    } else if a < s1 {
        (a + 1, b)
    } else if b > s2 {
        (a, b - 1)
    } else {
        (a, b + 1)
    }
}

/// Reaches cell `(nx, ny)` from a cell of color `(r, g, b)`: an unreached
/// cell is marked and queued, and filled with that color when it is to be
/// filled.
#[verifier::spinoff_prover]
#[verifier::rlimit(40)]
fn visit_cell(
    pixels: &mut Vec<u8>,
    visited: &mut Vec<bool>,
    queue: &mut Vec<(usize, usize)>,
    filled: &mut bool,
    w: usize,
    h: usize,
    nx: usize,
    ny: usize,
    r: u8,
    g: u8,
    b: u8,
    Ghost(old_px): Ghost<Seq<u8>>,
    Ghost(head): Ghost<int>,
    Ghost(lev): Ghost<Seq<int>>,
    Ghost(lv): Ghost<int>,
)
    requires
        flood_state(old_px, old(pixels)@, old(visited)@, old(queue)@, head, *old(filled), w as int, h as int),
        nearest_state(old_px, old(pixels)@, old(visited)@, old(queue)@, lev, w as int, h as int),
        !old(visited)@[at(w as int, nx as int, ny as int)] ==> {
            &&& nearest_at(old_px, w as int, h as int, nx as int, ny as int, lv)
            &&& color_at_distance(old_px, w as int, h as int, nx as int, ny as int, lv, r, g, b)
            &&& old(queue)@.len() > 0 ==> lev.last() <= lv
        },
        w * h * 4 <= usize::MAX,
        nx < w,
        ny < h,
        source_color(old_px, w * h, r, g, b),
    ensures
        flood_state(old_px, final(pixels)@, final(visited)@, final(queue)@, head, *final(filled), w as int, h as int),
        nearest_state(
            old_px,
            final(pixels)@,
            final(visited)@,
            final(queue)@,
            if old(visited)@[at(w as int, nx as int, ny as int)] { lev } else { lev.push(lv) },
            w as int,
            h as int,
        ),
        old(visited)@[at(w as int, nx as int, ny as int)] ==> final(queue)@ == old(queue)@,
        !old(visited)@[at(w as int, nx as int, ny as int)] ==> final(queue)@ == old(queue)@.push((nx, ny)),
        final(visited)@[at(w as int, nx as int, ny as int)],
        forall|i: int| 0 <= i < w * h && old(visited)@[i] ==> #[trigger] final(visited)@[i],
        final(queue)@.len() >= old(queue)@.len(),
        forall|k: int| 0 <= k < old(queue)@.len() ==> #[trigger] final(queue)@[k] == old(queue)@[k],
        final(queue)@.len() - old(queue)@.len() + 2 * count_false(final(visited)@) <= 2 * count_false(old(visited)@) - (
        final(queue)@.len() - old(queue)@.len()),
        final(queue)@.len() + count_false(final(visited)@) == old(queue)@.len() + count_false(old(visited)@),
        (final(pixels)@, final(visited)@, final(queue)@, *final(filled)) == flood_visit(
            (old(pixels)@, old(visited)@, old(queue)@, *old(filled)),
            w as int,
            nx as int,
            ny as int,
            r,
            g,
            b,
        ),
{
    proof {
        reveal(flood_state);
        reveal(nearest_state);
    }
    let ghost n = (w * h) as int;
    let ghost cur0 = pixels@;
    let ghost vis0 = visited@;
    let ghost q0 = queue@;
    let ghost f0 = *filled;
    let ghost ni = at(w as int, nx as int, ny as int);
    proof {
        lemma_at_bounds(w as int, h as int, nx as int, ny as int);
        let j = choose|j: int| 0 <= j < n && !#[trigger] fillable_at(old_px, j) && old_px[4 * j] == r && old_px[4 * j + 1] == g && old_px[4 * j + 2] == b;
    }
    let idx = ny * w + nx;
    if visited[idx] {
        return;
    }
    visited.set(idx, true);
    proof {
        lemma_count_false_set(vis0, ni);
    }
    let dst = idx * 4;
    let fill_here = pixels[dst + 3] < 255;
    if fill_here {
        pixels.set(dst, r);
        pixels.set(dst + 1, g);
        pixels.set(dst + 2, b);
        pixels.set(dst + 3, 255);
        *filled = true;
    }
    queue.push((nx, ny));
    proof {
        let cur = pixels@;
        let vis = visited@;
        let q = queue@;
        assert(vis =~= vis0.update(ni, true));
        assert forall|i: int| 0 <= i < n && i != ni implies same_pixel(cur, cur0, i) && (vis[i] == vis0[i]) by {}
        assert(same_pixel(cur0, old_px, ni));
        if fill_here {
            assert(fillable_at(old_px, ni));
        } else {
            assert(same_pixel(cur, cur0, ni));
            assert(!fillable_at(old_px, ni));
            assert(source_color(old_px, n, cur[4 * ni], cur[4 * ni + 1], cur[4 * ni + 2]));
        }
        assert forall|i: int| 0 <= i < n && #[trigger] vis[i] implies !fillable_at(cur, i) && source_color(old_px, n, cur[4 * i], cur[4 * i + 1], cur[4 * i + 2]) by {
            if i != ni {
                assert(vis0[i]);
            }
        }
        assert forall|i: int| 0 <= i < n && !#[trigger] vis[i] implies same_pixel(cur, old_px, i) by {
            assert(!vis0[i]);
        }
        assert forall|i: int| 0 <= i < n && !#[trigger] fillable_at(old_px, i) implies same_pixel(cur, old_px, i) by {
            if i != ni {
                assert(same_pixel(cur0, old_px, i));
            }
        }
        assert forall|i: int| 0 <= i < n && !#[trigger] same_pixel(cur, old_px, i) implies cur[4 * i + 3] == 255 && source_color(old_px, n, cur[4 * i], cur[4 * i + 1], cur[4 * i + 2]) by {
            if i != ni {
                assert(!same_pixel(cur0, old_px, i));
            }
        }
        assert forall|i: int| 0 <= i < n && #[trigger] vis[i] && fillable_at(old_px, i) implies *filled by {
            if i != ni {
                assert(vis0[i]);
            }
        }
        if *filled {
            if !f0 {
                assert(fillable_at(old_px, ni));
            }
        }
        assert forall|k: int| 0 <= k < q.len() implies (#[trigger] q[k]).0 < w && q[k].1 < h && vis[at(w as int, q[k].0 as int, q[k].1 as int)] by {
            if k < q0.len() {
                assert(q[k] == q0[k]);
                lemma_at_bounds(w as int, h as int, q0[k].0 as int, q0[k].1 as int);
                assert(vis0[at(w as int, q0[k].0 as int, q0[k].1 as int)]);
            }
        }
        assert forall|x: int, y: int| 0 <= x < w && 0 <= y < h && #[trigger] vis[at(w as int, x, y)] implies exists|k: int| 0 <= k < q.len() && #[trigger] q[k] == (x as usize, y as usize) by {
            lemma_at_bounds(w as int, h as int, x, y);
            if at(w as int, x, y) == ni {
                lemma_at_injective(w as int, x, y, nx as int, ny as int);
                assert(q[q0.len() as int] == (x as usize, y as usize));
            } else {
                assert(vis0[at(w as int, x, y)]);
                let k = choose|k: int| 0 <= k < q0.len() && #[trigger] q0[k] == (x as usize, y as usize);
                assert(q[k] == q0[k]);
            }
        }
        assert forall|k: int| 0 <= k < head implies neighbors_marked(vis, w as int, h as int, (#[trigger] q[k]).0 as int, q[k].1 as int) by {
            assert(q[k] == q0[k]);
            assert(neighbors_marked(vis0, w as int, h as int, q0[k].0 as int, q0[k].1 as int));
            let x = q0[k].0 as int;
            let y = q0[k].1 as int;
            if x > 0 {
                lemma_at_bounds(w as int, h as int, x - 1, y);
            }
            if x + 1 < w {
                lemma_at_bounds(w as int, h as int, x + 1, y);
            }
            if y > 0 {
                lemma_at_bounds(w as int, h as int, x, y - 1);
            }
            if y + 1 < h {
                lemma_at_bounds(w as int, h as int, x, y + 1);
            }
        }
        let lev2 = lev.push(lv);
        assert forall|k: int| 0 <= k < q.len() implies nearest_at(old_px, w as int, h as int, (#[trigger] q[k]).0 as int, q[k].1 as int, lev2[k]) by {
            if k < q0.len() {
                assert(q[k] == q0[k]);
                assert(lev2[k] == lev[k]);
            }
        }
        assert forall|k1: int, k2: int| 0 <= k1 <= k2 < lev2.len() implies #[trigger] lev2[k1] <= #[trigger] lev2[k2] by {
            if k2 == lev.len() {
                if k1 < k2 {
                    assert(lev[k1] <= lev[lev.len() - 1]);
                }
            }
        }
        assert forall|x: int, y: int|
            0 <= x < w && 0 <= y < h && #[trigger] vis[at(w as int, x, y)] implies nearest_color(
                old_px,
                w as int,
                h as int,
                x,
                y,
                cur[4 * at(w as int, x, y)],
                cur[4 * at(w as int, x, y) + 1],
                cur[4 * at(w as int, x, y) + 2],
            ) by {
            lemma_at_bounds(w as int, h as int, x, y);
            if at(w as int, x, y) == ni {
                lemma_at_injective(w as int, x, y, nx as int, ny as int);
                if fill_here {
                    let (a, c) = choose|a: int, c: int|
                        #[trigger] source_cell(old_px, w as int, h as int, a, c) && manhattan(nx as int, ny as int, a, c) == lv
                            && old_px[4 * at(w as int, a, c)] == r && old_px[4 * at(w as int, a, c) + 1] == g && old_px[4 * at(
                            w as int,
                            a,
                            c,
                        ) + 2] == b;
                    assert(source_cell(old_px, w as int, h as int, a, c));
                } else {
                    assert(source_cell(old_px, w as int, h as int, x, y));
                    assert(manhattan(x, y, x, y) == 0);
                }
            } else {
                assert(vis0[at(w as int, x, y)]);
                assert(same_pixel(cur, cur0, at(w as int, x, y)));
            }
        }
    }
}

/// Once every queued cell before `next` has been expanded, a queue whose
/// level rises to `level + 1` at `next` has reached every cell within
/// `level + 1` of a source.
proof fn lemma_reach_next_level(
    old_px: Seq<u8>,
    cur: Seq<u8>,
    vis: Seq<bool>,
    q: Seq<(usize, usize)>,
    lev: Seq<int>,
    next: int,
    filled: bool,
    w: int,
    h: int,
    level: int,
)
    requires
        flood_state(old_px, cur, vis, q, next, filled, w, h),
        nearest_state(old_px, cur, vis, q, lev, w, h),
        0 <= next < q.len(),
        lev[next] == level + 1,
        0 <= level,
        w <= usize::MAX && h <= usize::MAX,
        reach_covers(old_px, w, h, vis, level),
    ensures
        reach_covers(old_px, w, h, vis, level + 1),
{
    reveal(flood_state);
    reveal(nearest_state);
    assert forall|a: int, b: int, s1: int, s2: int|
        #![trigger vis[at(w, a, b)], source_cell(old_px, w, h, s1, s2)]
        0 <= a < w && 0 <= b < h && source_cell(old_px, w, h, s1, s2) && manhattan(a, b, s1, s2) <= level + 1 implies vis[at(w, a, b)] by {
        if manhattan(a, b, s1, s2) > level {
            let rr = lemma_step_toward(w, h, a, b, s1, s2);
            lemma_at_bounds(w, h, rr.0, rr.1);
            assert(vis[at(w, rr.0, rr.1)]);
            let kk = choose|kk: int| 0 <= kk < q.len() && #[trigger] q[kk] == (rr.0 as usize, rr.1 as usize);
            assert(nearest_at(old_px, w, h, q[kk].0 as int, q[kk].1 as int, lev[kk]));
            assert(sources_at_least(old_px, w, h, rr.0, rr.1, lev[kk]));
            assert(lev[kk] <= level);
            if kk >= next {
                assert(lev[next] <= lev[kk]);
            }
            assert(neighbors_marked(vis, w, h, q[kk].0 as int, q[kk].1 as int));
            lemma_at_bounds(w, h, a, b);
        }
    }
}

/// Reaching more cells keeps every cell within `d` of a source reached.
proof fn lemma_reach_covers_grow(old_px: Seq<u8>, w: int, h: int, v1: Seq<bool>, v2: Seq<bool>, d: int)
    requires
        w > 0 && h > 0,
        v1.len() == w * h,
        reach_covers(old_px, w, h, v1, d),
        forall|i: int| 0 <= i < w * h && v1[i] ==> #[trigger] v2[i],
    ensures
        reach_covers(old_px, w, h, v2, d),
{
    assert forall|a: int, b: int, s1: int, s2: int|
        #![trigger v2[at(w, a, b)], source_cell(old_px, w, h, s1, s2)]
        0 <= a < w && 0 <= b < h && source_cell(old_px, w, h, s1, s2) && manhattan(a, b, s1, s2) <= d implies v2[at(w, a, b)] by {
        lemma_at_bounds(w, h, a, b);
        assert(v1[at(w, a, b)]);
    }
}

/// Visits the grid neighbor `(nx, ny)` of the cell `(x, y)` being expanded,
/// which lies at level `level` and holds the color `(r, g, b)`. Returns the
/// levels of the queue after the visit.
fn visit_neighbor(
    pixels: &mut Vec<u8>,
    visited: &mut Vec<bool>,
    queue: &mut Vec<(usize, usize)>,
    filled: &mut bool,
    w: usize,
    h: usize,
    head: usize,
    x: usize,
    y: usize,
    nx: usize,
    ny: usize,
    r: u8,
    g: u8,
    b: u8,
    Ghost(old_px): Ghost<Seq<u8>>,
    Ghost(lev): Ghost<Seq<int>>,
    Ghost(level): Ghost<int>,
) -> (next_lev: Ghost<Seq<int>>)
    requires
        w * h * 4 <= usize::MAX,
        head < old(queue)@.len(),
        nx < w,
        ny < h,
        manhattan(x as int, y as int, nx as int, ny as int) == 1,
        flood_state(old_px, old(pixels)@, old(visited)@, old(queue)@, head as int, *old(filled), w as int, h as int),
        nearest_state(old_px, old(pixels)@, old(visited)@, old(queue)@, lev, w as int, h as int),
        forall|j: int| head <= j < lev.len() ==> #[trigger] lev[j] <= level + 1,
        reach_covers(old_px, w as int, h as int, old(visited)@, level),
        nearest_at(old_px, w as int, h as int, x as int, y as int, level),
        nearest_color(old_px, w as int, h as int, x as int, y as int, r, g, b),
        source_color(old_px, w * h, r, g, b),
    ensures
        flood_state(old_px, final(pixels)@, final(visited)@, final(queue)@, head as int, *final(filled), w as int, h as int),
        nearest_state(old_px, final(pixels)@, final(visited)@, final(queue)@, next_lev@, w as int, h as int),
        forall|j: int| head <= j < next_lev@.len() ==> #[trigger] next_lev@[j] <= level + 1,
        next_lev@[head as int] == lev[head as int],
        reach_covers(old_px, w as int, h as int, final(visited)@, level),
        final(visited)@[at(w as int, nx as int, ny as int)],
        forall|i: int| 0 <= i < w * h && old(visited)@[i] ==> #[trigger] final(visited)@[i],
        final(queue)@.len() >= old(queue)@.len(),
        forall|k: int| 0 <= k < old(queue)@.len() ==> #[trigger] final(queue)@[k] == old(queue)@[k],
        final(queue)@.len() + 2 * count_false(final(visited)@) <= old(queue)@.len() + 2 * count_false(old(visited)@),
        final(queue)@.len() + count_false(final(visited)@) == old(queue)@.len() + count_false(old(visited)@),
        (final(pixels)@, final(visited)@, final(queue)@, *final(filled)) == flood_visit(
            (old(pixels)@, old(visited)@, old(queue)@, *old(filled)),
            w as int,
            nx as int,
            ny as int,
            r,
            g,
            b,
        ),
{
    let ghost vis0 = visited@;
    proof {
        lemma_flood_queued(old_px, pixels@, visited@, queue@, head as int, *filled, w as int, h as int, head as int);
        reveal(nearest_state);
        lemma_at_bounds(w as int, h as int, nx as int, ny as int);
    }
    let ghost was = visited@[at(w as int, nx as int, ny as int)];
    proof {
        if !was {
            lemma_neighbor_level(old_px, w as int, h as int, visited@, x as int, y as int, level, nx as int, ny as int, r, g, b);
            assert(lev[lev.len() - 1] <= level + 1);
        }
    }
    visit_cell(pixels, visited, queue, filled, w, h, nx, ny, r, g, b, Ghost(old_px), Ghost(head as int), Ghost(lev), Ghost(level + 1));
    proof {
        lemma_reach_covers_grow(old_px, w as int, h as int, vis0, visited@, level);
    }
    Ghost(if was { lev } else { lev.push(level + 1) })
}

/// Expands the queued cell at `head`: visits each of its grid neighbors
/// with its color. Returns the levels of the queue after the visits.
#[verifier::spinoff_prover]
#[verifier::rlimit(80)]
fn expand_head(
    pixels: &mut Vec<u8>,
    visited: &mut Vec<bool>,
    queue: &mut Vec<(usize, usize)>,
    filled: &mut bool,
    w: usize,
    h: usize,
    head: usize,
    Ghost(old_px): Ghost<Seq<u8>>,
    Ghost(lev0): Ghost<Seq<int>>,
) -> (next_lev: Ghost<Seq<int>>)
    requires
        w * h * 4 <= usize::MAX,
        head < old(queue)@.len(),
        flood_state(old_px, old(pixels)@, old(visited)@, old(queue)@, head as int, *old(filled), w as int, h as int),
        nearest_state(old_px, old(pixels)@, old(visited)@, old(queue)@, lev0, w as int, h as int),
        forall|j: int| head <= j < lev0.len() ==> #[trigger] lev0[j] <= lev0[head as int] + 1,
        reach_covers(old_px, w as int, h as int, old(visited)@, lev0[head as int]),
    ensures
        flood_state(old_px, final(pixels)@, final(visited)@, final(queue)@, head + 1, *final(filled), w as int, h as int),
        nearest_state(old_px, final(pixels)@, final(visited)@, final(queue)@, next_lev@, w as int, h as int),
        head + 1 < final(queue)@.len() ==> forall|j: int| head + 1 <= j < next_lev@.len() ==> #[trigger] next_lev@[j] <= next_lev@[head + 1] + 1,
        head + 1 < final(queue)@.len() ==> reach_covers(old_px, w as int, h as int, final(visited)@, next_lev@[head + 1]),
        forall|i: int| 0 <= i < w * h && old(visited)@[i] ==> #[trigger] final(visited)@[i],
        final(queue)@.len() >= old(queue)@.len(),
        final(queue)@.len() + 2 * count_false(final(visited)@) <= old(queue)@.len() + 2 * count_false(old(visited)@),
        final(queue)@.len() + count_false(final(visited)@) == old(queue)@.len() + count_false(old(visited)@),
        (final(pixels)@, final(visited)@, final(queue)@, *final(filled)) == flood_expand(
            (old(pixels)@, old(visited)@, old(queue)@, *old(filled)),
            w as int,
            h as int,
            head as int,
        ),
{
    let ghost mut lev = lev0;
    let ghost st0: FloodView = (pixels@, visited@, queue@, *filled);
    let ghost vis_in = visited@;
    let ghost q_in = queue@;
    proof {
        lemma_flood_queued(old_px, pixels@, visited@, queue@, head as int, *filled, w as int, h as int, head as int);
        lemma_nearest_queued(old_px, pixels@, visited@, queue@, lev, w as int, h as int, head as int);
    }
    let (x, y) = queue[head];
    proof {
        lemma_at_bounds(w as int, h as int, x as int, y as int);
    }
    let src = (y * w + x) * 4;
    let r = pixels[src];
    let g = pixels[src + 1];
    let b = pixels[src + 2];
    let ghost level = lev[head as int];
    proof {
        assert(nearest_color(old_px, w as int, h as int, x as int, y as int, r, g, b));
        assert(nearest_at(old_px, w as int, h as int, x as int, y as int, level));
        let (a0, c0) = choose|a: int, c: int| #[trigger] source_cell(old_px, w as int, h as int, a, c) && manhattan(x as int, y as int, a, c) == level;
        assert(level >= 0);
        let (a1, c1) = choose|a: int, c: int|
            #[trigger] source_cell(old_px, w as int, h as int, a, c) && old_px[4 * at(w as int, a, c)] == r && old_px[4 * at(w as int, a, c) + 1] == g
                && old_px[4 * at(w as int, a, c) + 2] == b && sources_at_least(old_px, w as int, h as int, x as int, y as int, manhattan(x as int, y as int, a, c));
        lemma_at_bounds(w as int, h as int, a1, c1);
        assert(source_color(old_px, w * h, r, g, b));
    }
    if x > 0 {
        let Ghost(l2) = visit_neighbor(pixels, visited, queue, filled, w, h, head, x, y, x - 1, y, r, g, b, Ghost(old_px), Ghost(lev), Ghost(level));
        proof {
            lev = l2;
        }
    }
    let ghost v1 = visited@;
    let ghost st1: FloodView = (pixels@, visited@, queue@, *filled);
    assert(st1 == if x > 0 { flood_visit(st0, w as int, x - 1, y as int, r, g, b) } else { st0 });
    if x + 1 < w {
        let Ghost(l2) = visit_neighbor(pixels, visited, queue, filled, w, h, head, x, y, x + 1, y, r, g, b, Ghost(old_px), Ghost(lev), Ghost(level));
        proof {
            lev = l2;
        }
    }
    let ghost v2 = visited@;
    let ghost st2: FloodView = (pixels@, visited@, queue@, *filled);
    assert(st2 == if x + 1 < w { flood_visit(st1, w as int, x + 1, y as int, r, g, b) } else { st1 });
    if y > 0 {
        let Ghost(l2) = visit_neighbor(pixels, visited, queue, filled, w, h, head, x, y, x, y - 1, r, g, b, Ghost(old_px), Ghost(lev), Ghost(level));
        proof {
            lev = l2;
        }
    }
    let ghost v3 = visited@;
    let ghost st3: FloodView = (pixels@, visited@, queue@, *filled);
    assert(st3 == if y > 0 { flood_visit(st2, w as int, x as int, y - 1, r, g, b) } else { st2 });
    if y + 1 < h {
        let Ghost(l2) = visit_neighbor(pixels, visited, queue, filled, w, h, head, x, y, x, y + 1, r, g, b, Ghost(old_px), Ghost(lev), Ghost(level));
        proof {
            lev = l2;
        }
    }
    assert((pixels@, visited@, queue@, *filled) == if y + 1 < h { flood_visit(st3, w as int, x as int, y + 1, r, g, b) } else { st3 });
    assert(st0.2[head as int] == (x, y));
    assert(st0.0[4 * at(w as int, x as int, y as int)] == r);
    assert(st0.0[4 * at(w as int, x as int, y as int) + 1] == g);
    assert(st0.0[4 * at(w as int, x as int, y as int) + 2] == b);
    proof {
        if x > 0 {
            lemma_at_bounds(w as int, h as int, x - 1, y as int);
            assert(v1[at(w as int, x - 1, y as int)]);
            assert(v2[at(w as int, x - 1, y as int)]);
            assert(v3[at(w as int, x - 1, y as int)]);
        }
        if x + 1 < w {
            lemma_at_bounds(w as int, h as int, x + 1, y as int);
            assert(v2[at(w as int, x + 1, y as int)]);
            assert(v3[at(w as int, x + 1, y as int)]);
        }
        if y > 0 {
            lemma_at_bounds(w as int, h as int, x as int, y - 1);
            assert(v3[at(w as int, x as int, y - 1)]);
        }
        assert(queue@[head as int] == q_in[head as int]);
        assert(neighbors_marked(visited@, w as int, h as int, x as int, y as int));
        lemma_flood_advance(old_px, pixels@, visited@, queue@, head as int, *filled, w as int, h as int);
        let next = head + 1;
        if next < queue@.len() {
            lemma_flood_queued(old_px, pixels@, visited@, queue@, head as int, *filled, w as int, h as int, head as int);
            lemma_nearest_queued(old_px, pixels@, visited@, queue@, lev, w as int, h as int, head as int);
            assert(lev[head as int] <= lev[next as int]);
            assert forall|j: int| next <= j < lev.len() implies #[trigger] lev[j] <= lev[next as int] + 1 by {
                assert(lev[j] <= level + 1);
            }
            if lev[next as int] > level {
                lemma_reach_next_level(old_px, pixels@, visited@, queue@, lev, next as int, *filled, w as int, h as int, level);
            }
        }
        assert forall|i: int| 0 <= i < w * h && vis_in[i] implies #[trigger] visited@[i] by {}
    }
    Ghost(lev)
}

/// Once every queued cell is expanded, the flood has reached the whole grid:
/// something was filled, nothing is left to fill, and every filled pixel
/// holds the color of a nearest source.
proof fn lemma_flood_complete(
    old_px: Seq<u8>,
    cur: Seq<u8>,
    vis: Seq<bool>,
    q: Seq<(usize, usize)>,
    lev: Seq<int>,
    filled: bool,
    w: int,
    h: int,
    x0: int,
    y0: int,
)
    requires
        flood_state(old_px, cur, vis, q, q.len() as int, filled, w, h),
        nearest_state(old_px, cur, vis, q, lev, w, h),
        w <= usize::MAX && h <= usize::MAX,
        0 <= x0 < w,
        0 <= y0 < h,
        vis[at(w, x0, y0)],
        has_fillable(old_px),
    ensures
        filled,
        forall|i: int| 0 <= i < cur.len() / 4 ==> !#[trigger] fillable_at(cur, i),
        forall|i: int|
            0 <= i < old_px.len() / 4 && #[trigger] fillable_at(old_px, i) ==> cur[4 * i + 3] == 255 && source_color(
                old_px,
                (old_px.len() / 4) as int,
                cur[4 * i],
                cur[4 * i + 1],
                cur[4 * i + 2],
            ),
        forall|i: int|
            0 <= i < old_px.len() / 4 && #[trigger] fillable_at(old_px, i) ==> nearest_color(
                old_px,
                w,
                h,
                i % w,
                i / w,
                cur[4 * i],
                cur[4 * i + 1],
                cur[4 * i + 2],
            ),
{
    reveal(flood_state);
    reveal(nearest_state);
    assert forall|a: int, b: int| 0 <= a < w && 0 <= b < h && #[trigger] vis[at(w, a, b)] implies neighbors_marked(vis, w, h, a, b) by {
        lemma_at_bounds(w, h, a, b);
        let j = choose|j: int| 0 <= j < q.len() && #[trigger] q[j] == (a as usize, b as usize);
    }
    lemma_flood_covers(vis, w, h, x0, y0);
    let t = choose|i: int| 0 <= i < old_px.len() / 4 && #[trigger] fillable_at(old_px, i);
    assert(vis[t]);
    assert forall|i: int| 0 <= i < cur.len() / 4 implies !#[trigger] fillable_at(cur, i) by {
        assert(vis[i]);
    }
    assert forall|i: int| 0 <= i < old_px.len() / 4 && #[trigger] fillable_at(old_px, i) implies cur[4 * i + 3] == 255 && source_color(
        old_px,
        (old_px.len() / 4) as int,
        cur[4 * i],
        cur[4 * i + 1],
        cur[4 * i + 2],
    ) by {
        assert(vis[i]);
        assert(!same_pixel(cur, old_px, i));
    }
    assert forall|i: int| 0 <= i < old_px.len() / 4 && #[trigger] fillable_at(old_px, i) implies nearest_color(
        old_px,
        w,
        h,
        i % w,
        i / w,
        cur[4 * i],
        cur[4 * i + 1],
        cur[4 * i + 2],
    ) by {
        lemma_index_coords(i, w, h);
        assert(vis[at(w, i % w, i / w)]);
    }
}

/// The flood starts with nothing reached and nothing queued.
proof fn lemma_flood_start(old_px: Seq<u8>, cur: Seq<u8>, vis: Seq<bool>, w: int, h: int)
    requires
        w > 0 && h > 0,
        cur == old_px,
        cur.len() == 4 * (w * h),
        vis.len() == w * h,
        forall|i: int| 0 <= i < vis.len() ==> !#[trigger] vis[i],
    ensures
        flood_state(old_px, cur, vis, Seq::empty(), 0, false, w, h),
        nearest_state(old_px, cur, vis, Seq::empty(), Seq::empty(), w, h),
{
    reveal(flood_state);
    reveal(nearest_state);
    let q: Seq<(usize, usize)> = Seq::empty();
    assert forall|a: int, b: int| 0 <= a < w && 0 <= b < h && #[trigger] vis[at(w, a, b)] implies exists|j: int| 0 <= j < q.len() && #[trigger] q[j] == (a as usize, b as usize) by {
        lemma_at_bounds(w, h, a, b);
    }
    assert forall|x: int, y: int| 0 <= x < w && 0 <= y < h && #[trigger] vis[at(w, x, y)] implies false by {
        lemma_at_bounds(w, h, x, y);
    }
}

/// Once every source cell has been reached, every cell at distance 0 from a
/// source is reached.
proof fn lemma_sources_reached(old_px: Seq<u8>, vis: Seq<bool>, opaque: Seq<(usize, usize)>, w: int, h: int)
    requires
        0 < w <= usize::MAX && 0 < h <= usize::MAX,
        forall|a: int, b: int| #[trigger] source_cell(old_px, w, h, a, b) ==> exists|j: int| 0 <= j < opaque.len() && opaque[j] == (a as usize, b as usize),
        forall|j: int| 0 <= j < opaque.len() ==> vis[at(w, (#[trigger] opaque[j]).0 as int, opaque[j].1 as int)],
    ensures
        reach_covers(old_px, w, h, vis, 0),
{
    assert forall|a: int, b: int, s1: int, s2: int|
        #![trigger vis[at(w, a, b)], source_cell(old_px, w, h, s1, s2)]
        0 <= a < w && 0 <= b < h && source_cell(old_px, w, h, s1, s2) && manhattan(a, b, s1, s2) <= 0 implies vis[at(w, a, b)] by {
        assert(a == s1 && b == s2);
        let j = choose|j: int| 0 <= j < opaque.len() && opaque[j] == (s1 as usize, s2 as usize);
        assert(vis[at(w, opaque[j].0 as int, opaque[j].1 as int)]);
    }
}

/// What the heuristic fill leaves: nothing changed unless the frame is
/// non-empty, well-formed and holds both an opaque pixel and one to fill;
/// otherwise no pixel is left to fill, opaque pixels are untouched, and each
/// filled pixel is opaque with the color of an opaque pixel of the input
/// that lies nearest to it.
pub open spec fn fill_result(before: ImageFrame, after: ImageFrame, filled: bool) -> bool {
    &&& after.width == before.width
    &&& after.height == before.height
    &&& fill_pixels(before.width, before.height, before.pixels@, after.pixels@, filled)
}

/// Whether the heuristic fill fills anything in a `width` by `height`
/// buffer: it is non-empty, well-formed and holds both an opaque pixel and
/// one to fill.
pub open spec fn fills(width: u32, height: u32, before: Seq<u8>) -> bool {
    width > 0 && height > 0 && before.len() == width * height * 4 && has_source(before) && has_fillable(before)
}

/// [`fill_result`] over the pixel buffers of a `width` by `height` frame.
pub open spec fn fill_pixels(width: u32, height: u32, before: Seq<u8>, after: Seq<u8>, filled: bool) -> bool {
    &&& after.len() == before.len()
    &&& filled == fills(width, height, before)
    &&& !filled ==> after == before
    &&& filled ==> !has_fillable(after)
    &&& forall|i: int| 0 <= i < before.len() / 4 && !#[trigger] fillable_at(before, i) ==> same_pixel(after, before, i)
    &&& filled ==> forall|i: int|
        0 <= i < before.len() / 4 && #[trigger] fillable_at(before, i) ==> nearest_color(
            before,
            width as int,
            height as int,
            i % (width as int),
            i / (width as int),
            after[4 * i],
            after[4 * i + 1],
            after[4 * i + 2],
        )
    &&& filled ==> forall|i: int|
        0 <= i < before.len() / 4 && #[trigger] fillable_at(before, i) ==> {
            &&& after[4 * i + 3] == 255
            &&& source_color(before, (before.len() / 4) as int, after[4 * i], after[4 * i + 1], after[4 * i + 2])
        }
}

/// Filling is idempotent: once the heuristic fill has run, running it
/// again fills nothing and leaves the frame as it is.
pub proof fn lemma_fill_is_idempotent(
    first: ImageFrame,
    once: ImageFrame,
    filled_once: bool,
    twice: ImageFrame,
    filled_twice: bool,
)
    requires
        fill_result(first, once, filled_once),
        fill_result(once, twice, filled_twice),
    ensures
        !filled_twice,
        twice.width == once.width && twice.height == once.height,
        twice.pixels@ == once.pixels@,
{
}

/// The fill is deterministic: two runs on the same pixels, size and seed
/// leave the same pixels.
pub proof fn lemma_fill_is_deterministic(before: Seq<u8>, width: u32, height: u32, seed: u64, after1: Seq<u8>, after2: Seq<u8>)
    requires
        after1 == heuristic_fill(before, width, height, seed),
        after2 == heuristic_fill(before, width, height, seed),
    ensures
        after1 == after2,
{
}

/// Floods the grid breadth-first from `sources`, in their order: each
/// reached pixel that is to be filled takes the color of the cell it was
/// reached from. Returns whether any pixel was filled.
#[verifier::rlimit(40)]
fn flood_from_sources(pixels: &mut Vec<u8>, w: usize, h: usize, sources: &Vec<(usize, usize)>) -> (filled: bool)
    requires
        w > 0 && h > 0,
        w * h * 4 <= usize::MAX,
        old(pixels)@.len() == 4 * (w * h),
        sources@.len() > 0,
        has_fillable(old(pixels)@),
        forall|j: int| 0 <= j < sources@.len() ==> (#[trigger] sources@[j]).0 < w && sources@[j].1 < h && !fillable_at(old(pixels)@, at(w as int, sources@[j].0 as int, sources@[j].1 as int)),
        forall|a: int, b: int| #[trigger] source_cell(old(pixels)@, w as int, h as int, a, b) ==> exists|j: int| 0 <= j < sources@.len() && sources@[j] == (a as usize, b as usize),
    ensures
        filled,
        final(pixels)@.len() == old(pixels)@.len(),
        forall|i: int| 0 <= i < w * h ==> !#[trigger] fillable_at(final(pixels)@, i),
        forall|i: int| 0 <= i < w * h && !#[trigger] fillable_at(old(pixels)@, i) ==> same_pixel(final(pixels)@, old(pixels)@, i),
        forall|i: int|
            0 <= i < w * h && #[trigger] fillable_at(old(pixels)@, i) ==> final(pixels)@[4 * i + 3] == 255 && source_color(
                old(pixels)@,
                w * h,
                final(pixels)@[4 * i],
                final(pixels)@[4 * i + 1],
                final(pixels)@[4 * i + 2],
            ),
        forall|i: int|
            0 <= i < w * h && #[trigger] fillable_at(old(pixels)@, i) ==> nearest_color(
                old(pixels)@,
                w as int,
                h as int,
                i % (w as int),
                i / (w as int),
                final(pixels)@[4 * i],
                final(pixels)@[4 * i + 1],
                final(pixels)@[4 * i + 2],
            ),
        final(pixels)@ == flood_pixels(old(pixels)@, w as int, h as int, sources@),
{
    let n = w * h;
    let ghost ni = n as int;
    let ghost old_px = pixels@;
    let mut visited: Vec<bool> = Vec::new();
    while visited.len() < n
        invariant
            visited@.len() <= n,
            forall|i: int| 0 <= i < visited@.len() ==> !#[trigger] visited@[i],
        decreases n - visited@.len(),
    {
        visited.push(false);
    }
    let mut queue: Vec<(usize, usize)> = Vec::new();
    let mut filled = false;
    let ghost mut lev: Seq<int> = Seq::empty();
    let ghost start = flood_start(old_px, ni);
    proof {
        lemma_flood_start(old_px, pixels@, visited@, w as int, h as int);
        assert(visited@ =~= start.1);
        assert(queue@ =~= start.2);
        lemma_count_false_none(n as nat);
    }
    let mut k: usize = 0;
    while k < sources.len()
        invariant
            n == w * h,
            ni == n,
            n * 4 <= usize::MAX,
            k <= sources@.len(),
            sources@.len() > 0,
            forall|j: int| 0 <= j < sources@.len() ==> (#[trigger] sources@[j]).0 < w && sources@[j].1 < h && !fillable_at(old_px, at(w as int, sources@[j].0 as int, sources@[j].1 as int)),
            forall|a: int, b: int| #[trigger] source_cell(old_px, w as int, h as int, a, b) ==> exists|j: int| 0 <= j < sources@.len() && sources@[j] == (a as usize, b as usize),
            flood_state(old_px, pixels@, visited@, queue@, 0, filled, w as int, h as int),
            nearest_state(old_px, pixels@, visited@, queue@, lev, w as int, h as int),
            forall|j: int| 0 <= j < lev.len() ==> #[trigger] lev[j] == 0,
            lev.len() == queue@.len(),
            forall|j: int| 0 <= j < k ==> visited@[at(w as int, (#[trigger] sources@[j]).0 as int, sources@[j].1 as int)],
            (pixels@, visited@, queue@, filled) == flood_seed(start, w as int, sources@, k as nat),
            queue@.len() + count_false(visited@) == n,
            start == flood_start(old_px, ni),
        decreases sources@.len() - k,
    {
        let (x, y) = sources[k];
        proof {
            reveal(flood_state);
            lemma_at_bounds(w as int, h as int, x as int, y as int);
        }
        let idx = (y * w + x) * 4;
        let r = pixels[idx];
        let g = pixels[idx + 1];
        let b = pixels[idx + 2];
        let ghost c = at(w as int, x as int, y as int);
        let ghost was = visited@[c];
        let ghost vis_before = visited@;
        proof {
            reveal(flood_state);
            reveal(nearest_state);
            if !visited@[c] {
                assert(same_pixel(pixels@, old_px, c));
                assert(source_cell(old_px, w as int, h as int, x as int, y as int));
                assert(manhattan(x as int, y as int, x as int, y as int) == 0);
                assert(nearest_at(old_px, w as int, h as int, x as int, y as int, 0));
                assert(color_at_distance(old_px, w as int, h as int, x as int, y as int, 0, r, g, b));
                if queue@.len() > 0 {
                    assert(lev[lev.len() - 1] == 0);
                }
            }
            assert(source_color(old_px, ni, r, g, b));
        }
        visit_cell(pixels, &mut visited, &mut queue, &mut filled, w, h, x, y, r, g, b, Ghost(old_px), Ghost(0), Ghost(lev), Ghost(0));
        proof {
            if !was {
                lev = lev.push(0);
            }
            lemma_at_bounds(w as int, h as int, sources@[0].0 as int, sources@[0].1 as int);
            assert forall|j: int| 0 <= j < k + 1 implies visited@[at(w as int, (#[trigger] sources@[j]).0 as int, sources@[j].1 as int)] by {
                if j < k {
                    lemma_at_bounds(w as int, h as int, sources@[j].0 as int, sources@[j].1 as int);
                    assert(vis_before[at(w as int, sources@[j].0 as int, sources@[j].1 as int)]);
                }
            }
        }
        k += 1;
    }
    proof {
        lemma_sources_reached(old_px, visited@, sources@, w as int, h as int);
        if queue@.len() > 0 {
            assert(lev[0] == 0);
        }
    }
    let ghost seeded: FloodView = (pixels@, visited@, queue@, filled);
    let mut head: usize = 0;
    while head < queue.len()
        invariant
            n == w * h,
            ni == n,
            n * 4 <= usize::MAX,
            sources@.len() > 0,
            head <= queue@.len(),
            sources@[0].0 < w && sources@[0].1 < h,
            visited@[at(w as int, sources@[0].0 as int, sources@[0].1 as int)],
            flood_state(old_px, pixels@, visited@, queue@, head as int, filled, w as int, h as int),
            nearest_state(old_px, pixels@, visited@, queue@, lev, w as int, h as int),
            head < queue@.len() ==> forall|j: int| head <= j < lev.len() ==> #[trigger] lev[j] <= lev[head as int] + 1,
            head < queue@.len() ==> reach_covers(old_px, w as int, h as int, visited@, lev[head as int]),
            queue@.len() + count_false(visited@) == n,
            flood_run((pixels@, visited@, queue@, filled), w as int, h as int, head as int, (n - head) as nat) == flood_run(
                seeded,
                w as int,
                h as int,
                0,
                n as nat,
            ),
            seeded == flood_seed(flood_start(old_px, ni), w as int, sources@, sources@.len()),
        decreases queue@.len() - head + 2 * count_false(visited@),
    {
        proof {
            lemma_at_bounds(w as int, h as int, sources@[0].0 as int, sources@[0].1 as int);
        }
        let Ghost(next_lev) = expand_head(pixels, &mut visited, &mut queue, &mut filled, w, h, head, Ghost(old_px), Ghost(lev));
        proof {
            lev = next_lev;
        }
        head += 1;
    }
    proof {
        lemma_flood_complete(old_px, pixels@, visited@, queue@, lev, filled, w as int, h as int, sources@[0].0 as int, sources@[0].1 as int);
        reveal(flood_state);
        assert(old_px.len() / 4 == ni);
        assert(pixels@.len() / 4 == ni);
    }
    filled
}

/// Fills every transparent (alpha below 255) pixel with the
/// color of a nearest (in Manhattan distance) opaque pixel, flooding
/// breadth-first from all opaque pixels at once in an order shuffled by
/// `seed`; filled pixels become opaque. Returns whether anything was
/// filled: the frame must be non-empty and well-formed and hold both an
/// opaque pixel and one to fill.
///
/// The result is [`heuristic_fill`] of the frame's pixels, size and
/// `seed`: among equally near opaque pixels, the one that comes first in
/// the seed-shuffled order wins, so an identical frame and seed always give
/// identical pixels.
#[verifier::rlimit(40)]
pub fn fill_transparent_heuristic(frame: &mut ImageFrame, seed: u64) -> (filled: bool)
    requires
        old(frame).width * old(frame).height * 4 <= usize::MAX,
    ensures
        fill_result(*old(frame), *final(frame), filled),
        final(frame).pixels@ == heuristic_fill(old(frame).pixels@, old(frame).width, old(frame).height, seed),
{
    let w = frame.width as usize;
    let h = frame.height as usize;
    if w == 0 || h == 0 {
        return false;
    }
    let n = w * h;
    if frame.pixels.len() != n * 4 {
        return false;
    }
    let ghost old_px = frame.pixels@;
    let ghost ni = n as int;
    proof {
        assert(old_px.len() / 4 == ni);
    }
    let mut opaque: Vec<(usize, usize)> = Vec::new();
    let mut y: usize = 0;
    while y < h
        invariant
            w == frame.width,
            h == frame.height,
            n == w * h,
            w > 0,
            n * 4 <= usize::MAX,
            frame.pixels@ == old_px,
            old_px.len() == 4 * ni,
            ni == n,
            y <= h,
            forall|k: int| 0 <= k < opaque@.len() ==> (#[trigger] opaque@[k]).0 < w && opaque@[k].1 < h && !fillable_at(old_px, at(w as int, opaque@[k].0 as int, opaque@[k].1 as int)),
            forall|a: int, b: int| 0 <= a < w && 0 <= b < y && !#[trigger] fillable_at(old_px, at(w as int, a, b)) ==> exists|k: int| 0 <= k < opaque@.len() && opaque@[k] == (a as usize, b as usize),
            opaque@ == opaque_upto(old_px, w as int, y * w),
        decreases h - y,
    {
        let mut x: usize = 0;
        while x < w
            invariant
                w == frame.width,
                h == frame.height,
                n == w * h,
                w > 0,
                n * 4 <= usize::MAX,
                frame.pixels@ == old_px,
                old_px.len() == 4 * ni,
                ni == n,
                y < h,
                x <= w,
                forall|k: int| 0 <= k < opaque@.len() ==> (#[trigger] opaque@[k]).0 < w && opaque@[k].1 < h && !fillable_at(old_px, at(w as int, opaque@[k].0 as int, opaque@[k].1 as int)),
                forall|a: int, b: int| 0 <= a < w && 0 <= b < y && !#[trigger] fillable_at(old_px, at(w as int, a, b)) ==> exists|k: int| 0 <= k < opaque@.len() && opaque@[k] == (a as usize, b as usize),
                forall|a: int| 0 <= a < x && !#[trigger] fillable_at(old_px, at(w as int, a, y as int)) ==> exists|k: int| 0 <= k < opaque@.len() && opaque@[k] == (a as usize, y),
                opaque@ == opaque_upto(old_px, w as int, y * w + x),
            decreases w - x,
        {
            proof {
                lemma_at_bounds(w as int, h as int, x as int, y as int);
                vstd::arithmetic::div_mod::lemma_fundamental_div_mod_converse(y * w + x, w as int, y as int, x as int);
                assert(pos_of(w as int, y * w + x) == (x, y));
            }
            let idx = (y * w + x) * 4;
            let p = &frame.pixels;
            if p[idx + 3] == 255 {
                let ghost before = opaque@;
                opaque.push((x, y));
                proof {
                    assert forall|a: int, b: int| 0 <= a < w && 0 <= b < y && !#[trigger] fillable_at(old_px, at(w as int, a, b)) implies exists|k: int| 0 <= k < opaque@.len() && opaque@[k] == (a as usize, b as usize) by {
                        let k = choose|k: int| 0 <= k < before.len() && before[k] == (a as usize, b as usize);
                        assert(opaque@[k] == before[k]);
                    }
                    assert forall|a: int| 0 <= a < x + 1 && !#[trigger] fillable_at(old_px, at(w as int, a, y as int)) implies exists|k: int| 0 <= k < opaque@.len() && opaque@[k] == (a as usize, y) by {
                        if a == x {
                            assert(opaque@[before.len() as int] == (a as usize, y));
                        } else {
                            let k = choose|k: int| 0 <= k < before.len() && before[k] == (a as usize, y);
                            assert(opaque@[k] == before[k]);
                        }
                    }
                }
            }
            x += 1;
        }
        assert(y * w + w == (y + 1) * w) by (nonlinear_arith);
        y += 1;
    }
    assert(h * w == w * h) by (nonlinear_arith);
    if opaque.len() == 0 {
        proof {
            assert forall|i: int| 0 <= i < old_px.len() / 4 implies #[trigger] fillable_at(old_px, i) by {
                lemma_index_coords(i, w as int, h as int);
                if !fillable_at(old_px, i) {
                    assert(!fillable_at(old_px, at(w as int, i % (w as int), i / (w as int))));
                }
            }
        }
        return false;
    }
    if !has_transparent_pixels(frame) {
        return false;
    }
    let ghost unsorted = opaque@;
    sort_by_fill_order(&mut opaque, seed);
    proof {
        unsorted.to_multiset_ensures();
        opaque@.to_multiset_ensures();
        assert forall|k: int| 0 <= k < opaque@.len() implies (#[trigger] opaque@[k]).0 < w && opaque@[k].1 < h && !fillable_at(old_px, at(w as int, opaque@[k].0 as int, opaque@[k].1 as int)) by {
            assert(opaque@.contains(opaque@[k]));
            assert(opaque@.to_multiset().count(opaque@[k]) > 0);
            assert(unsorted.to_multiset().count(opaque@[k]) > 0);
            assert(unsorted.contains(opaque@[k]));
        }
        assert forall|a: int, b: int| #[trigger] source_cell(old_px, w as int, h as int, a, b) implies exists|k: int| 0 <= k < opaque@.len() && opaque@[k] == (a as usize, b as usize) by {
            let k0 = choose|k: int| 0 <= k < unsorted.len() && unsorted[k] == (a as usize, b as usize);
            assert(unsorted.contains(unsorted[k0]));
            assert(unsorted.to_multiset().count(unsorted[k0]) > 0);
            assert(opaque@.to_multiset().count(unsorted[k0]) > 0);
            assert(opaque@.contains(unsorted[k0]));
        }
    }
    let filled = flood_from_sources(&mut frame.pixels, w, h, &opaque);
    proof {
        assert(has_fillable(old_px));
        assert(fill_order_sorted(unsorted, opaque@, seed));
        lemma_opaque_upto_distinct(old_px, w as int, ni);
        let chosen = fill_sources(old_px, w as int, h as int, seed);
        assert(fill_order_sorted(unsorted, chosen, seed));
        lemma_fill_sources_unique(unsorted, seed, chosen, opaque@);
    }
    filled
}

/// What the structural check of a generative edit gives for its `version`,
/// `expand_beyond_image` setting and canvas: a version other than 1, an
/// expand without a canvas, a canvas without an expand, and an empty
/// canvas are refused, in that order.
pub open spec fn generative_edit_check(
    version: u32,
    expand_beyond_image: Option<bool>,
    canvas: Option<(u32, u32, i32, i32)>,
    result: Result<(), CoreError>,
) -> bool {
    let expand = expand_beyond_image == Some(true);
    if version != 1 {
        result matches Err(CoreError::InvalidAdjustment { name, value, minimum, maximum }) && name@ == "generative_edit.version"@
            && value == version && minimum == 1 && maximum == 1
    } else if expand && canvas is None {
        result matches Err(CoreError::InvalidAdjustment { name, value, minimum, maximum }) && name@ == "generative_edit.canvas"@
            && value == 0 && minimum == 1 && maximum == 1
    } else if !expand && canvas is Some {
        result matches Err(CoreError::InvalidAdjustment { name, value, minimum, maximum }) && name@ == "generative_edit.canvas"@
            && value == 1 && minimum == 0 && maximum == 0
    } else if canvas matches Some(c) && (c.0 == 0 || c.1 == 0) {
        result matches Err(CoreError::InvalidAdjustment { name, value, minimum, maximum }) && name@
            == "generative_edit.canvas.output"@ && value == 0 && minimum == 1 && maximum == u32::MAX
    } else {
        result is Ok
    }
}

/// Structural check of a generative edit: its `version`, whether it expands
/// beyond the image (unset means no) and its canvas `(output_width,
/// output_height, source_offset_x, source_offset_y)`.
pub fn validate_generative_edit(version: u32, expand_beyond_image: Option<bool>, canvas: Option<(u32, u32, i32, i32)>) -> (result: Result<(), CoreError>)
    ensures
        generative_edit_check(version, expand_beyond_image, canvas, result),
{
    if version != 1 {
        let result = Err(
            CoreError::InvalidAdjustment { name: String::from_str("generative_edit.version"), value: version as i64, minimum: 1, maximum: 1 },
        );
        proof {
            reveal_strlit("generative_edit.version");
        }
        return result;
    }
    let expand = match expand_beyond_image {
        Some(value) => value,
        None => false,
    };
    if expand && canvas.is_none() {
        let result = Err(
            CoreError::InvalidAdjustment { name: String::from_str("generative_edit.canvas"), value: 0, minimum: 1, maximum: 1 },
        );
        proof {
            reveal_strlit("generative_edit.canvas");
        }
        return result;
    }
    if !expand && canvas.is_some() {
        let result = Err(
            CoreError::InvalidAdjustment { name: String::from_str("generative_edit.canvas"), value: 1, minimum: 0, maximum: 0 },
        );
        proof {
            reveal_strlit("generative_edit.canvas");
        }
        return result;
    }
    if let Some((output_width, output_height, _, _)) = canvas {
        if output_width == 0 || output_height == 0 {
            let result = Err(
                CoreError::InvalidAdjustment {
                    name: String::from_str("generative_edit.canvas.output"),
                    value: 0,
                    minimum: 1,
                    maximum: 4294967295,
                },
            );
            proof {
                reveal_strlit("generative_edit.canvas.output");
            }
            return result;
        }
    }
    Ok(())
}

/// Whether an expand canvas is refused outright: the canvas failed its own
/// validation, or it is no larger than the source in either direction.
pub open spec fn expand_canvas_refused(frame_width: u32, frame_height: u32, canvas: (u32, u32, i32, i32), canvas_valid: bool) -> bool {
    !canvas_valid || (canvas.0 <= frame_width && canvas.1 <= frame_height)
}

/// Whether the source, placed at the canvas offset, leaves the canvas.
pub open spec fn expand_source_outside(frame_width: u32, frame_height: u32, canvas: (u32, u32, i32, i32)) -> bool {
    canvas.2 < 0 || canvas.3 < 0 || canvas.2 + frame_width > canvas.0 || canvas.3 + frame_height > canvas.1
}

/// The bounds check of an expand canvas stays within `u32`.
pub open spec fn expand_bounds_computable(frame_width: u32, frame_height: u32, canvas: (u32, u32, i32, i32), canvas_valid: bool) -> bool {
    expand_canvas_refused(frame_width, frame_height, canvas, canvas_valid) || canvas.2 < 0 || canvas.3 < 0 || (canvas.2
        + frame_width <= u32::MAX && (canvas.2 + frame_width > canvas.0 || canvas.3 + frame_height <= u32::MAX))
}

/// `e` is the refusal of an expand canvas named `name` with the given
/// lower bound.
pub open spec fn is_expand_error(e: CoreError, name: Seq<char>, minimum: i64) -> bool {
    e matches CoreError::InvalidAdjustment { name: n, value, minimum: lo, maximum: hi } && n@ == name && value == 0 && lo
        == minimum && hi == 1
}

/// What checking an expand canvas against the source frame gives: a refused
/// canvas, then a source that leaves the canvas, are errors.
pub open spec fn expand_check_result(
    frame_width: u32,
    frame_height: u32,
    canvas: (u32, u32, i32, i32),
    canvas_valid: bool,
    result: Result<(), CoreError>,
) -> bool {
    if expand_canvas_refused(frame_width, frame_height, canvas, canvas_valid) {
        result matches Err(e) && is_expand_error(e, "generative_expand.canvas"@, 1)
    } else if expand_source_outside(frame_width, frame_height, canvas) {
        result matches Err(e) && is_expand_error(e, "generative_expand.bounds"@, 0)
    } else {
        result is Ok
    }
}

/// Checks an expand canvas `(output_width, output_height, source_offset_x,
/// source_offset_y)` against `frame`: `canvas_valid` is the verdict of the
/// canvas's own validation. Refuses a canvas that is not larger than the
/// source, or on which the source does not fit.
pub fn validate_expand_canvas(frame: &ImageFrame, canvas: (u32, u32, i32, i32), canvas_valid: bool) -> (result: Result<(), CoreError>)
    requires
        expand_bounds_computable(frame.width, frame.height, canvas, canvas_valid),
    ensures
        expand_check_result(frame.width, frame.height, canvas, canvas_valid, result),
{
    let (output_width, output_height, offset_x, offset_y) = canvas;
    if !canvas_valid || (output_width <= frame.width && output_height <= frame.height) {
        let result = Err(
            CoreError::InvalidAdjustment { name: String::from_str("generative_expand.canvas"), value: 0, minimum: 1, maximum: 1 },
        );
        proof {
            reveal_strlit("generative_expand.canvas");
        }
        return result;
    }
    if offset_x < 0 || offset_y < 0 || (offset_x as u32 + frame.width) > output_width || (offset_y as u32 + frame.height)
        > output_height {
        let result = Err(
            CoreError::InvalidAdjustment { name: String::from_str("generative_expand.bounds"), value: 0, minimum: 0, maximum: 1 },
        );
        proof {
            reveal_strlit("generative_expand.bounds");
        }
        return result;
    }
    Ok(())
}

/// Whether canvas pixel `(x, y)` lies on the placed source.
pub open spec fn inside_source(frame_width: u32, frame_height: u32, canvas: (u32, u32, i32, i32), x: int, y: int) -> bool {
    canvas.2 <= x < canvas.2 + frame_width && canvas.3 <= y < canvas.3 + frame_height
}

/// Channel `c` of canvas pixel `(x, y)` before the fill: the source pixel
/// under it, or transparent black off the source.
pub open spec fn composite_byte(frame: ImageFrame, canvas: (u32, u32, i32, i32), x: int, y: int, c: int) -> u8 {
    if inside_source(frame.width, frame.height, canvas, x, y) {
        frame.pixels@[cell(frame.width as int, 4, x - canvas.2, y - canvas.3, c)]
    } else {
        0
    }
}

/// The canvas before the fill: the source composited at the canvas offset
/// onto transparent black.
pub open spec fn expand_composite(frame: ImageFrame, canvas: (u32, u32, i32, i32)) -> Seq<u8> {
    Seq::new(
        (canvas.0 * canvas.1 * 4) as nat,
        |i: int| composite_byte(frame, canvas, (i / 4) % (canvas.0 as int), (i / 4) / (canvas.0 as int), i % 4),
    )
}

proof fn lemma_composite_at(frame: ImageFrame, canvas: (u32, u32, i32, i32), x: int, y: int, c: int)
    requires
        0 <= x < canvas.0,
        0 <= y < canvas.1,
        0 <= c < 4,
    ensures
        0 <= cell(canvas.0 as int, 4, x, y, c) < canvas.0 * canvas.1 * 4,
        expand_composite(frame, canvas)[cell(canvas.0 as int, 4, x, y, c)] == composite_byte(frame, canvas, x, y, c),
{
    let w = canvas.0 as int;
    lemma_cell_bounds(w, canvas.1 as int, 4, x, y, c);
    let p = y * w + x;
    let i = cell(w, 4, x, y, c);
    vstd::arithmetic::div_mod::lemma_fundamental_div_mod_converse(i, 4, p, c);
    vstd::arithmetic::div_mod::lemma_fundamental_div_mod_converse(p, w, y, x);
}

/// Composites `frame` into `canvas` at its offset, leaves the rest of the
/// canvas transparent and fills it with the heuristic flood.
fn build_expanded_canvas(frame: &ImageFrame, canvas: (u32, u32, i32, i32), seed: u64) -> (out: ImageFrame)
    requires
        frame.pixels@.len() >= frame.width * frame.height * 4,
        !expand_source_outside(frame.width, frame.height, canvas),
        canvas.0 * canvas.1 * 4 <= usize::MAX,
    ensures
        out.width == canvas.0,
        out.height == canvas.1,
        fill_pixels(canvas.0, canvas.1, expand_composite(*frame, canvas), out.pixels@, fills(canvas.0, canvas.1, expand_composite(*frame, canvas))),
        out.pixels@ == heuristic_fill(expand_composite(*frame, canvas), canvas.0, canvas.1, seed),
{
    let (output_width, output_height, offset_x, offset_y) = canvas;
    let ow = output_width as usize;
    let oh = output_height as usize;
    let fw = frame.width as usize;
    let fh = frame.height as usize;
    let ox = offset_x as usize;
    let oy = offset_y as usize;
    let ghost comp = expand_composite(*frame, canvas);
    let total = frame.pixels.len();
    let mut pixels: Vec<u8> = Vec::new();
    let mut y: usize = 0;
    while y < oh
        invariant
            ow == canvas.0,
            oh == canvas.1,
            fw == frame.width,
            fh == frame.height,
            ox == canvas.2,
            oy == canvas.3,
            comp == expand_composite(*frame, canvas),
            total == frame.pixels@.len(),
            frame.pixels@.len() >= fw * fh * 4,
            !expand_source_outside(frame.width, frame.height, canvas),
            ow * oh * 4 <= usize::MAX,
            y <= oh,
            pixels@.len() == y * ow * 4,
            forall|i: int| 0 <= i < pixels@.len() ==> #[trigger] pixels@[i] == comp[i],
        decreases oh - y,
    {
        let mut x: usize = 0;
        while x < ow
            invariant
                ow == canvas.0,
                oh == canvas.1,
                fw == frame.width,
                fh == frame.height,
                ox == canvas.2,
                oy == canvas.3,
                comp == expand_composite(*frame, canvas),
                total == frame.pixels@.len(),
                frame.pixels@.len() >= fw * fh * 4,
                !expand_source_outside(frame.width, frame.height, canvas),
                ow * oh * 4 <= usize::MAX,
                y < oh,
                x <= ow,
                pixels@.len() == (y * ow + x) * 4,
                forall|i: int| 0 <= i < pixels@.len() ==> #[trigger] pixels@[i] == comp[i],
            decreases ow - x,
        {
            proof {
                lemma_cell_bounds(ow as int, oh as int, 4, x as int, y as int, 3);
                lemma_composite_at(*frame, canvas, x as int, y as int, 0);
                lemma_composite_at(*frame, canvas, x as int, y as int, 1);
                lemma_composite_at(*frame, canvas, x as int, y as int, 2);
                lemma_composite_at(*frame, canvas, x as int, y as int, 3);
            }
            let ghost before = pixels@;
            let ghost base = cell(ow as int, 4, x as int, y as int, 0);
            if x >= ox && x < ox + fw && y >= oy && y < oy + fh {
                let sx = x - ox;
                let sy = y - oy;
                proof {
                    lemma_cell_bounds(fw as int, fh as int, 4, sx as int, sy as int, 3);
                }
                let src = (sy * fw + sx) * 4;
                pixels.push(frame.pixels[src]);
                pixels.push(frame.pixels[src + 1]);
                pixels.push(frame.pixels[src + 2]);
                pixels.push(frame.pixels[src + 3]);
            } else {
                pixels.push(0);
                pixels.push(0);
                pixels.push(0);
                pixels.push(0);
            }
            proof {
                assert forall|i: int| 0 <= i < pixels@.len() implies #[trigger] pixels@[i] == comp[i] by {
                    if i < before.len() {
                        assert(pixels@[i] == before[i]);
                    } else {
                        assert(i == base || i == base + 1 || i == base + 2 || i == base + 3);
                    }
                }
            }
            x += 1;
        }
        proof {
            assert((y * ow + ow) * 4 == (y + 1) * ow * 4) by (nonlinear_arith);
        }
        y += 1;
    }
    proof {
        assert(oh * ow * 4 == ow * oh * 4) by (nonlinear_arith);
        assert(pixels@ =~= comp);
    }
    let mut out = ImageFrame { width: output_width, height: output_height, pixels };
    fill_transparent_heuristic(&mut out, seed);
    out
}

/// Which generative operation a cached result belongs to; the two share
/// the flood but never each other's results.
#[derive(Debug, Clone, Copy, PartialEq, Eq, Structural)]
pub enum GenerativeRole {
    /// Fills transparent pixels after lens correction.
    AutoFillTransparent,
    /// Composites the source into a larger canvas and fills the border.
    Expand,
}

/// The role's byte in the key digest.
pub open spec fn role_tag(role: GenerativeRole) -> u8 {
    match role {
        GenerativeRole::AutoFillTransparent => 1,
        GenerativeRole::Expand => 2,
    }
}

impl GenerativeRole {
    fn tag(self) -> (tag: u8)
        ensures
            tag == role_tag(self),
    {
        match self {
            GenerativeRole::AutoFillTransparent => 1,
            GenerativeRole::Expand => 2,
        }
    }
}

/// The ASCII bytes of `generative-`.
pub open spec fn generative_prefix() -> Seq<u8> {
    seq![103u8, 101, 110, 101, 114, 97, 116, 105, 118, 101, 45]
}

fn push_generative_prefix(message: &mut Vec<u8>)
    ensures
        final(message)@ == old(message)@ + generative_prefix(),
{
    let ghost start = message@;
    message.push(103);
    message.push(101);
    message.push(110);
    message.push(101);
    message.push(114);
    message.push(97);
    message.push(116);
    message.push(105);
    message.push(118);
    message.push(101);
    message.push(45);
    proof {
        assert(message@ =~= start + generative_prefix());
    }
}

/// The message hashed for the flood input digest: `generative-input`, the
/// width and height little-endian, then the RGBA8 bytes.
pub open spec fn input_message(width: u32, height: u32, pixels: Seq<u8>) -> Seq<u8> {
    generative_prefix() + seq![105u8, 110, 112, 117, 116] + le_u32(width) + le_u32(height) + pixels
}

/// BLAKE3 digest of the exact flood input frame: identical pixels always
/// share a result, different pixels always miss.
pub fn generative_input_digest(frame: &ImageFrame) -> (digest: String)
    ensures
        digest@ == blake3_hex(input_message(frame.width, frame.height, frame.pixels@)),
{
    let mut message: Vec<u8> = Vec::new();
    push_generative_prefix(&mut message);
    let ghost start = message@;
    message.push(105);
    message.push(110);
    message.push(112);
    message.push(117);
    message.push(116);
    proof {
        assert(message@ =~= start + seq![105u8, 110, 112, 117, 116]);
    }
    push_u32_le(&mut message, frame.width);
    push_u32_le(&mut message, frame.height);
    push_bytes(&mut message, frame.pixels.as_slice());
    proof {
        assert(message@ =~= input_message(frame.width, frame.height, frame.pixels@));
    }
    blake3_hex_digest(message.as_slice())
}

/// Complete identity of one flood run.
#[derive(Debug, Clone, PartialEq, Eq)]
pub struct GenerativeCacheKey {
    pub role: GenerativeRole,
    pub seed: u64,
    /// Target canvas `(output_width, output_height, source_offset_x,
    /// source_offset_y)` of an expand; `None` for auto-fill.
    pub canvas: Option<(u32, u32, i32, i32)>,
    /// Digest of the exact input frame of the flood.
    pub input_digest: String,
}

/// The canvas part of a key message: `0`, or `1` and the four fields
/// little-endian.
pub open spec fn canvas_part(canvas: Option<(u32, u32, i32, i32)>) -> Seq<u8> {
    match canvas {
        None => seq![0u8],
        Some((w, h, ox, oy)) => seq![1u8] + le_u32(w) + le_u32(h) + le_i32(ox) + le_i32(oy),
    }
}

impl GenerativeCacheKey {
    /// The message hashed for the key digest: `generative-cache`, the role
    /// byte, the seed little-endian, the canvas part and the input digest.
    pub open spec fn message(&self) -> Seq<u8> {
        generative_prefix() + seq![99u8, 97, 99, 104, 101, role_tag(self.role)] + le_u64(self.seed) + canvas_part(
            self.canvas,
        ) + utf8(self.input_digest@)
    }

    /// Identity of an auto-fill run over `frame` with `seed`.
    pub fn auto_fill(frame: &ImageFrame, seed: u64) -> (key: GenerativeCacheKey)
        ensures
            key.role == GenerativeRole::AutoFillTransparent,
            key.seed == seed,
            key.canvas == None::<(u32, u32, i32, i32)>,
            key.input_digest@ == blake3_hex(input_message(frame.width, frame.height, frame.pixels@)),
    {
        GenerativeCacheKey {
            role: GenerativeRole::AutoFillTransparent,
            seed,
            canvas: None,
            input_digest: generative_input_digest(frame),
        }
    }

    /// Identity of an expand run compositing `frame` into `canvas`
    /// (`(output_width, output_height, source_offset_x, source_offset_y)`)
    /// with `seed`.
    pub fn expand(frame: &ImageFrame, canvas: (u32, u32, i32, i32), seed: u64) -> (key: GenerativeCacheKey)
        ensures
            key.role == GenerativeRole::Expand,
            key.seed == seed,
            key.canvas == Some(canvas),
            key.input_digest@ == blake3_hex(input_message(frame.width, frame.height, frame.pixels@)),
    {
        GenerativeCacheKey {
            role: GenerativeRole::Expand,
            seed,
            canvas: Some(canvas),
            input_digest: generative_input_digest(frame),
        }
    }

    /// Stable cache digest; every identity component takes part.
    pub fn digest(&self) -> (digest: String)
        ensures
            digest@ == blake3_hex(self.message()),
    {
        let mut message: Vec<u8> = Vec::new();
        push_generative_prefix(&mut message);
        let ghost start = message@;
        message.push(99);
        message.push(97);
        message.push(99);
        message.push(104);
        message.push(101);
        message.push(self.role.tag());
        proof {
            assert(message@ =~= start + seq![99u8, 97, 99, 104, 101, role_tag(self.role)]);
        }
        push_u64_le(&mut message, self.seed);
        let ghost before_canvas = message@;
        match self.canvas {
            None => push_byte(&mut message, 0),
            Some((w, h, ox, oy)) => {
                push_byte(&mut message, 1);
                push_u32_le(&mut message, w);
                push_u32_le(&mut message, h);
                push_i32_le(&mut message, ox);
                push_i32_le(&mut message, oy);
            },
        }
        proof {
            assert(message@ =~= before_canvas + canvas_part(self.canvas));
        }
        push_str(&mut message, self.input_digest.as_str());
        proof {
            assert(message@ =~= self.message());
        }
        blake3_hex_digest(message.as_slice())
    }
}

/// Observability counters of the generative cache; `bfs_runs` counts every
/// flood actually run.
#[derive(Debug, Clone, Copy, PartialEq, Eq, Structural)]
pub struct GenerativeCacheStats {
    pub hits: u64,
    pub misses: u64,
    pub bfs_runs: u64,
    pub entries: usize,
    pub used_bytes: usize,
}

impl Default for GenerativeCacheStats {
    fn default() -> (stats: Self)
        ensures
            stats == (GenerativeCacheStats { hits: 0, misses: 0, bfs_runs: 0, entries: 0, used_bytes: 0 }),
    {
        GenerativeCacheStats { hits: 0, misses: 0, bfs_runs: 0, entries: 0, used_bytes: 0 }
    }
}

/// Byte-budgeted LRU of completed flood results keyed by key digest;
/// a read returns a private copy.
#[derive(Debug)]
pub struct GenerativeCache {
    entries: LruPreviewCache,
    stats: GenerativeCacheStats,
}

impl GenerativeCache {
    #[verifier::type_invariant]
    spec fn inv(self) -> bool {
        &&& self.entries.actives() == Set::<Seq<char>>::empty()
        &&& self.entries.spec_max_slots() == usize::MAX
        &&& self.entries.spec_used_bytes() <= self.entries.spec_max_bytes()
    }

    /// The results per key digest, their stamps and the byte budget, as a
    /// least-recently-used cache that pins nothing.
    pub closed spec fn lru(&self) -> LruPreviewCache {
        self.entries
    }

    /// The hit, miss and flood counters.
    pub closed spec fn counters(&self) -> (u64, u64, u64) {
        (self.stats.hits, self.stats.misses, self.stats.bfs_runs)
    }

    /// An empty cache of `max_bytes` pixel bytes with zeroed counters.
    pub fn new(max_bytes: usize) -> (cache: GenerativeCache)
        ensures
            cache.lru().view() == Map::<Seq<char>, (u32, u32, Seq<u8>)>::empty(),
            cache.lru().spec_max_bytes() == max_bytes,
            cache.lru().spec_used_bytes() == 0,
            cache.counters() == (0u64, 0u64, 0u64),
            cache.lru().view().dom().finite(),
            cache.lru().spec_used_bytes() == bytes_total(frame_bytes(cache.lru().view())),
    {
        GenerativeCache { entries: LruPreviewCache::new(usize::MAX, max_bytes), stats: GenerativeCacheStats::default() }
    }

    /// Exact-identity lookup: a copy of the result stored under the key's
    /// digest (counted as a hit), or `None` (counted as a miss).
    pub fn get(&mut self, key: &GenerativeCacheKey) -> (frame: Option<ImageFrame>)
        ensures
            ({
                let id = blake3_hex(key.message());
                &&& frame is Some <==> old(self).lru().view().contains_key(id)
                &&& (frame matches Some(f) ==> frame_view(f) == old(self).lru().view()[id])
                &&& final(self).lru().view() == old(self).lru().view()
                &&& final(self).lru().actives() == old(self).lru().actives()
                &&& final(self).lru().spec_len() == old(self).lru().spec_len()
                &&& final(self).lru().spec_used_bytes() == old(self).lru().spec_used_bytes()
                &&& final(self).lru().spec_max_bytes() == old(self).lru().spec_max_bytes()
                &&& final(self).lru().spec_max_slots() == old(self).lru().spec_max_slots()
                &&& if frame is Some {
                    &&& final(self).lru().stamps() == old(self).lru().stamps().insert(id, final(self).lru().spec_clock())
                    &&& final(self).lru().spec_clock() == old(self).lru().spec_clock().wrapping_add(1)
                    &&& final(self).counters() == (
                        old(self).counters().0.wrapping_add(1),
                        old(self).counters().1,
                        old(self).counters().2,
                    )
                } else {
                    &&& final(self).lru().stamps() == old(self).lru().stamps()
                    &&& final(self).lru().spec_clock() == old(self).lru().spec_clock()
                    &&& final(self).counters() == (
                        old(self).counters().0,
                        old(self).counters().1.wrapping_add(1),
                        old(self).counters().2,
                    )
                }
            }),
            final(self).lru().view().dom().finite(),
            final(self).lru().spec_used_bytes() == bytes_total(frame_bytes(final(self).lru().view())),
    {
        proof {
            use_type_invariant(&*self);
        }
        let digest = key.digest();
        let mut entries = LruPreviewCache::new(usize::MAX, 0);
        std::mem::swap(&mut entries, &mut self.entries);
        let found = entries.get(digest.as_str());
        std::mem::swap(&mut entries, &mut self.entries);
        match found {
            None => {
                self.stats.misses = self.stats.misses.wrapping_add(1);
            },
            Some(_) => {
                self.stats.hits = self.stats.hits.wrapping_add(1);
            },
        }
        found
    }

    /// Inserts (or replaces) a result under the key's digest, evicting
    /// least recently used results until the budget fits. Returns `false`,
    /// storing nothing, when the frame alone exceeds the budget.
    pub fn insert(&mut self, key: &GenerativeCacheKey, frame: ImageFrame) -> (inserted: bool)
        requires
            old(self).lru().spec_used_bytes() + frame.pixels@.len() <= usize::MAX,
        ensures
            LruPreviewCache::insert_outcome(&old(self).lru(), &final(self).lru(), blake3_hex(key.message()), frame_view(frame), inserted),
            old(self).lru().actives() == Set::<Seq<char>>::empty(),
            old(self).lru().spec_max_slots() == usize::MAX,
            final(self).counters() == old(self).counters(),
            final(self).lru().view().dom().finite(),
            final(self).lru().spec_used_bytes() == bytes_total(frame_bytes(final(self).lru().view())),
    {
        proof {
            use_type_invariant(&*self);
        }
        let digest = key.digest();
        let mut entries = LruPreviewCache::new(usize::MAX, 0);
        std::mem::swap(&mut entries, &mut self.entries);
        let inserted = entries.insert(digest.as_str(), frame);
        proof {
            if inserted && entries.spec_used_bytes() > entries.spec_max_bytes() {
                let id = blake3_hex(key.message());
                let fb = frame_bytes(entries.view());
                assert(entries.view().dom() =~= set![id]) by {
                    assert forall|k: Seq<char>| #[trigger] entries.view().contains_key(k) implies k == id by {
                        if k != id {
                            assert(entries.actives().contains(k));
                        }
                    }
                }
                assert(fb.dom().contains(id));
                lemma_bytes_total_remove(fb, id);
                assert(fb.remove(id).dom() =~= Set::<Seq<char>>::empty());
            }
        }
        std::mem::swap(&mut entries, &mut self.entries);
        inserted
    }

    /// Counts one flood actually run.
    pub fn note_bfs_run(&mut self)
        ensures
            final(self).lru() == old(self).lru(),
            final(self).counters() == (old(self).counters().0, old(self).counters().1, old(self).counters().2.wrapping_add(1)),
    {
        proof {
            use_type_invariant(&*self);
        }
        self.stats.bfs_runs = self.stats.bfs_runs.wrapping_add(1);
    }

    /// The counters with the current entry count and byte use.
    pub fn stats(&self) -> (stats: GenerativeCacheStats)
        ensures
            (stats.hits, stats.misses, stats.bfs_runs) == self.counters(),
            stats.entries == self.lru().spec_len(),
            stats.used_bytes == self.lru().spec_used_bytes(),
    {
        GenerativeCacheStats {
            hits: self.stats.hits,
            misses: self.stats.misses,
            bfs_runs: self.stats.bfs_runs,
            entries: self.entries.len(),
            used_bytes: self.entries.used_bytes(),
        }
    }

    /// Drops every result; the counters are kept.
    pub fn clear(&mut self)
        ensures
            final(self).lru().view() == Map::<Seq<char>, (u32, u32, Seq<u8>)>::empty(),
            final(self).lru().spec_used_bytes() == 0,
            final(self).lru().spec_max_bytes() == old(self).lru().spec_max_bytes(),
            final(self).lru().spec_len() == 0,
            final(self).counters() == old(self).counters(),
            final(self).lru().view().dom().finite(),
            final(self).lru().spec_used_bytes() == bytes_total(frame_bytes(final(self).lru().view())),
    {
        proof {
            use_type_invariant(&*self);
        }
        let mut entries = LruPreviewCache::new(usize::MAX, 0);
        std::mem::swap(&mut entries, &mut self.entries);
        entries.clear();
        std::mem::swap(&mut entries, &mut self.entries);
    }

    /// Whether no result is cached.
    pub fn is_empty(&self) -> (empty: bool)
        ensures
            empty == (self.lru().view().dom().len() == 0),
    {
        self.entries.is_empty()
    }

    /// The pixel bytes held.
    pub fn used_bytes(&self) -> (used: usize)
        ensures
            used == self.lru().spec_used_bytes(),
            used == bytes_total(frame_bytes(self.lru().view())),
            used <= self.lru().spec_max_bytes(),
    {
        proof {
            use_type_invariant(self);
        }
        self.entries.used_bytes()
    }
}

impl Default for GenerativeCache {
    /// An empty cache of 1.5 GB.
    fn default() -> (cache: Self)
        ensures
            cache.lru().view() == Map::<Seq<char>, (u32, u32, Seq<u8>)>::empty(),
            cache.lru().spec_max_bytes() == 1_500_000_000,
            cache.counters() == (0u64, 0u64, 0u64),
    {
        GenerativeCache::new(1_500_000_000)
    }
}

/// Outcome of [`fill_transparent_cached`].
#[derive(Debug, Clone, Copy, PartialEq, Eq, Structural)]
pub struct FillOutcome {
    /// Whether any transparent pixel was filled.
    pub filled: bool,
    /// Whether the result was served from the cache (no flood run).
    pub cache_hit: bool,
}

/// The digest under which the auto-fill result for a frame and seed is
/// cached.
pub open spec fn auto_fill_id(width: u32, height: u32, pixels: Seq<u8>, seed: u64) -> Seq<char> {
    blake3_hex(
        generative_prefix() + seq![99u8, 97, 99, 104, 101, 1] + le_u64(seed) + seq![0u8] + utf8(
            blake3_hex(input_message(width, height, pixels)),
        ),
    )
}

/// What a cached auto-fill leaves: a hit copies the stored result into the
/// frame without running the flood; a miss runs the flood and stores a
/// filled result under the frame's identity.
pub open spec fn auto_fill_outcome(
    cache_before: GenerativeCache,
    cache_after: GenerativeCache,
    frame_before: ImageFrame,
    frame_after: ImageFrame,
    seed: u64,
    outcome: FillOutcome,
) -> bool {
    let id = auto_fill_id(frame_before.width, frame_before.height, frame_before.pixels@, seed);
    let (hits, misses, runs) = cache_before.counters();
    &&& outcome.cache_hit == cache_before.lru().view().contains_key(id)
    &&& if outcome.cache_hit {
        &&& outcome.filled
        &&& frame_view(frame_after) == cache_before.lru().view()[id]
        &&& cache_after.lru().view() == cache_before.lru().view()
        &&& cache_after.counters() == (hits.wrapping_add(1), misses, runs)
    } else {
        &&& fill_result(frame_before, frame_after, outcome.filled)
        &&& frame_after.pixels@ == heuristic_fill(frame_before.pixels@, frame_before.width, frame_before.height, seed)
        &&& cache_after.counters() == (hits, misses.wrapping_add(1), runs.wrapping_add(1))
        &&& outcome.filled ==> LruPreviewCache::insert_outcome(
            &cache_before.lru(),
            &cache_after.lru(),
            id,
            frame_view(frame_after),
            frame_after.pixels@.len() <= cache_before.lru().spec_max_bytes(),
        )
        &&& !outcome.filled ==> cache_after.lru().view() == cache_before.lru().view()
    }
}

/// Auto-fill through `cache`: a result cached for the identical frame and
/// seed is served without running the flood; otherwise the flood runs and a
/// filled result is cached.
pub fn fill_transparent_cached(cache: &mut GenerativeCache, frame: &mut ImageFrame, seed: u64) -> (outcome: FillOutcome)
    requires
        old(frame).width * old(frame).height * 4 <= usize::MAX,
        old(cache).lru().spec_used_bytes() + old(frame).pixels@.len() <= usize::MAX,
    ensures
        auto_fill_outcome(*old(cache), *final(cache), *old(frame), *final(frame), seed, outcome),
{
    let key = GenerativeCacheKey::auto_fill(frame, seed);
    proof {
        assert(key.message() =~= generative_prefix() + seq![99u8, 97, 99, 104, 101, 1] + le_u64(seed) + seq![0u8] + utf8(
            blake3_hex(input_message(frame.width, frame.height, frame.pixels@)),
        ));
    }
    match cache.get(&key) {
        Some(cached) => {
            *frame = cached;
            FillOutcome { filled: true, cache_hit: true }
        },
        None => {
            cache.note_bfs_run();
            let filled = fill_transparent_heuristic(frame, seed);
            if filled {
                let copy = ImageFrame {
                    width: frame.width,
                    height: frame.height,
                    pixels: copy_bytes(frame.pixels.as_slice()),
                };
                cache.insert(&key, copy);
            }
            FillOutcome { filled, cache_hit: false }
        },
    }
}

/// An expand keeps the source in place: every opaque source
/// pixel `(x, y)` appears unchanged at its offset on the filled canvas.
pub proof fn lemma_expand_keeps_source(frame: ImageFrame, canvas: (u32, u32, i32, i32), out: Seq<u8>, x: int, y: int)
    requires
        fill_pixels(canvas.0, canvas.1, expand_composite(frame, canvas), out, fills(canvas.0, canvas.1, expand_composite(frame, canvas))),
        !expand_source_outside(frame.width, frame.height, canvas),
        frame.pixels@.len() >= frame.width * frame.height * 4,
        0 <= x < frame.width,
        0 <= y < frame.height,
        !fillable_at(frame.pixels@, at(frame.width as int, x, y)),
    ensures
        ({
            let t = 4 * at(canvas.0 as int, x + canvas.2, y + canvas.3);
            let s = 4 * at(frame.width as int, x, y);
            &&& out[t] == frame.pixels@[s]
            &&& out[t + 1] == frame.pixels@[s + 1]
            &&& out[t + 2] == frame.pixels@[s + 2]
            &&& out[t + 3] == frame.pixels@[s + 3]
        }),
{
    let comp = expand_composite(frame, canvas);
    let cx = x + canvas.2;
    let cy = y + canvas.3;
    let t = at(canvas.0 as int, cx, cy);
    let src = at(frame.width as int, x, y);
    lemma_composite_at(frame, canvas, cx, cy, 0);
    lemma_composite_at(frame, canvas, cx, cy, 1);
    lemma_composite_at(frame, canvas, cx, cy, 2);
    lemma_composite_at(frame, canvas, cx, cy, 3);
    lemma_cell_bounds(canvas.0 as int, canvas.1 as int, 1, cx, cy, 0);
    assert(cell(canvas.0 as int, 1, cx, cy, 0) == t);
    assert(cell(frame.width as int, 4, x, y, 0) == 4 * src);
    assert(cell(canvas.0 as int, 4, cx, cy, 0) == 4 * t);
    assert(comp.len() / 4 == canvas.0 * canvas.1);
    assert(comp[4 * t] == frame.pixels@[4 * src]);
    assert(comp[4 * t + 1] == frame.pixels@[4 * src + 1]);
    assert(comp[4 * t + 2] == frame.pixels@[4 * src + 2]);
    assert(comp[4 * t + 3] == frame.pixels@[4 * src + 3]);
    assert(!fillable_at(comp, t));
    assert(same_pixel(out, comp, t));
}

/// What an expand reads of an edit's generative settings.
#[derive(Debug, Clone, Copy, PartialEq, Eq)]
pub struct ExpandRequest {
    /// Whether the edit asks to expand beyond the image.
    pub expand_beyond_image: bool,
    /// The target canvas `(output_width, output_height, source_offset_x,
    /// source_offset_y)`, if the edit has one.
    pub canvas: Option<(u32, u32, i32, i32)>,
    /// Whether that canvas passed the edit format's own validation.
    pub canvas_valid: bool,
    /// The flood seed, if the edit sets one (otherwise 0).
    pub seed: Option<u64>,
}

/// The digest under which the expand result for a frame, canvas and seed
/// is cached.
pub open spec fn expand_id(width: u32, height: u32, pixels: Seq<u8>, canvas: (u32, u32, i32, i32), seed: u64) -> Seq<char> {
    blake3_hex(
        generative_prefix() + seq![99u8, 97, 99, 104, 101, 2] + le_u64(seed) + canvas_part(Some(canvas)) + utf8(
            blake3_hex(input_message(width, height, pixels)),
        ),
    )
}

/// Whether a request asks for an expand that passes the canvas checks.
pub open spec fn expand_runs(frame: ImageFrame, request: Option<ExpandRequest>) -> bool {
    &&& request matches Some(req)
    &&& req.expand_beyond_image
    &&& req.canvas matches Some(canvas)
    &&& !expand_canvas_refused(frame.width, frame.height, canvas, req.canvas_valid)
    &&& !expand_source_outside(frame.width, frame.height, canvas)
}

/// The inputs on which an expand through `cache` runs to completion: its
/// canvas checks stay within `u32`, and an expand that runs has a whole
/// source frame and a canvas whose pixels are addressable.
pub open spec fn expand_admissible(cache: GenerativeCache, frame: ImageFrame, request: Option<ExpandRequest>) -> bool {
    &&& (request matches Some(req) && req.expand_beyond_image && req.canvas is Some) ==> expand_bounds_computable(
        frame.width,
        frame.height,
        request.unwrap().canvas.unwrap(),
        request.unwrap().canvas_valid,
    )
    &&& expand_runs(frame, request) ==> {
        let canvas = request.unwrap().canvas.unwrap();
        &&& frame.pixels@.len() >= frame.width * frame.height * 4
        &&& canvas.0 * canvas.1 <= 0x1_0000_0000
        &&& canvas.0 * canvas.1 * 4 <= usize::MAX
        &&& cache.lru().spec_used_bytes() + canvas.0 * canvas.1 * 4 <= usize::MAX
    }
}

/// What an expand through a cache gives. Without an expand request the
/// frame comes back as it is; a request without a canvas, or with a canvas
/// that fails the checks, is refused; otherwise a result cached for the
/// identical frame, canvas and seed is served without running the flood,
/// or the flood runs on the composite and its result is cached.
pub open spec fn expand_outcome(
    cache_before: GenerativeCache,
    cache_after: GenerativeCache,
    frame: ImageFrame,
    request: Option<ExpandRequest>,
    result: Result<ImageFrame, CoreError>,
) -> bool {
    if !(request matches Some(req) && req.expand_beyond_image) {
        &&& result matches Ok(out) && frame_view(out) == frame_view(frame)
        &&& cache_after == cache_before
    } else {
        let req = request.unwrap();
        match req.canvas {
            None => {
                &&& result matches Err(e) && is_expand_error(e, "generative_expand.canvas"@, 1)
                &&& cache_after == cache_before
            },
            Some(canvas) => {
                if !expand_runs(frame, request) {
                    &&& result matches Err(e) && expand_check_result(frame.width, frame.height, canvas, req.canvas_valid, Err(e))
                    &&& cache_after == cache_before
                } else {
                    let seed = match req.seed {
                        Some(value) => value,
                        None => 0,
                    };
                    let id = expand_id(frame.width, frame.height, frame.pixels@, canvas, seed);
                    let (hits, misses, runs) = cache_before.counters();
                    let composite = expand_composite(frame, canvas);
                    &&& result matches Ok(out)
                    &&& if cache_before.lru().view().contains_key(id) {
                        &&& frame_view(result.unwrap()) == cache_before.lru().view()[id]
                        &&& cache_after.lru().view() == cache_before.lru().view()
                        &&& cache_after.counters() == (hits.wrapping_add(1), misses, runs)
                    } else {
                        let out = result.unwrap();
                        &&& out.width == canvas.0
                        &&& out.height == canvas.1
                        &&& fill_pixels(canvas.0, canvas.1, composite, out.pixels@, fills(canvas.0, canvas.1, composite))
                        &&& out.pixels@ == heuristic_fill(composite, canvas.0, canvas.1, seed)
                        &&& cache_after.counters() == (hits, misses.wrapping_add(1), runs.wrapping_add(1))
                        &&& LruPreviewCache::insert_outcome(
                            &cache_before.lru(),
                            &cache_after.lru(),
                            id,
                            frame_view(out),
                            out.pixels@.len() <= cache_before.lru().spec_max_bytes(),
                        )
                    }
                }
            },
        }
    }
}

/// Expand through `cache`: composites `frame` into the requested canvas
/// and fills the border with the heuristic flood. A result cached for the
/// identical frame, canvas and seed is served without running the flood.
pub fn apply_generative_expand_cached(
    cache: &mut GenerativeCache,
    frame: &ImageFrame,
    request: Option<ExpandRequest>,
) -> (result: Result<ImageFrame, CoreError>)
    requires
        expand_admissible(*old(cache), *frame, request),
    ensures
        expand_outcome(*old(cache), *final(cache), *frame, request, result),
{
    let unchanged = ImageFrame { width: frame.width, height: frame.height, pixels: copy_bytes(frame.pixels.as_slice()) };
    let req = match request {
        None => {
            return Ok(unchanged);
        },
        Some(req) => req,
    };
    if !req.expand_beyond_image {
        return Ok(unchanged);
    }
    let canvas = match req.canvas {
        None => {
            let result = Err(
                CoreError::InvalidAdjustment { name: String::from_str("generative_expand.canvas"), value: 0, minimum: 1, maximum: 1 },
            );
            proof {
                reveal_strlit("generative_expand.canvas");
            }
            return result;
        },
        Some(canvas) => canvas,
    };
    match validate_expand_canvas(frame, canvas, req.canvas_valid) {
        Err(e) => {
            return Err(e);
        },
        Ok(()) => {},
    }
    let seed = match req.seed {
        Some(value) => value,
        None => 0,
    };
    let key = GenerativeCacheKey::expand(frame, canvas, seed);
    proof {
        assert(key.message() =~= generative_prefix() + seq![99u8, 97, 99, 104, 101, 2] + le_u64(seed) + canvas_part(Some(canvas))
            + utf8(blake3_hex(input_message(frame.width, frame.height, frame.pixels@))));
    }
    match cache.get(&key) {
        Some(cached) => Ok(cached),
        None => {
            cache.note_bfs_run();
            let out = build_expanded_canvas(frame, canvas, seed);
            let copy = ImageFrame { width: out.width, height: out.height, pixels: copy_bytes(out.pixels.as_slice()) };
            proof {
                assert(out.pixels@.len() == canvas.0 * canvas.1 * 4);
            }
            cache.insert(&key, copy);
            Ok(out)
        },
    }
}

/// Once an expand has run for a frame, canvas and seed whose result fits
/// the budget, the next identical expand is a cache hit that serves exactly
/// that result.
pub proof fn lemma_repeat_expand_hits(
    cache_before: GenerativeCache,
    cache_after: GenerativeCache,
    frame: ImageFrame,
    request: Option<ExpandRequest>,
    result: Result<ImageFrame, CoreError>,
)
    requires
        expand_outcome(cache_before, cache_after, frame, request, result),
        expand_runs(frame, request),
        request.unwrap().canvas.unwrap().0 * request.unwrap().canvas.unwrap().1 * 4 <= cache_before.lru().spec_max_bytes(),
    ensures
        ({
            let req = request.unwrap();
            let seed = match req.seed {
                Some(value) => value,
                None => 0,
            };
            let id = expand_id(frame.width, frame.height, frame.pixels@, req.canvas.unwrap(), seed);
            &&& result is Ok
            &&& cache_after.lru().view().contains_key(id)
            &&& cache_after.lru().view()[id] == frame_view(result.unwrap())
        }),
{
}

/// Once an auto-fill has filled a frame whose result fits the budget, the
/// next auto-fill of the identical frame and seed is a cache hit that
/// serves exactly that result.
pub proof fn lemma_repeat_auto_fill_hits(
    cache_before: GenerativeCache,
    cache_after: GenerativeCache,
    frame_before: ImageFrame,
    frame_after: ImageFrame,
    seed: u64,
    outcome: FillOutcome,
)
    requires
        auto_fill_outcome(cache_before, cache_after, frame_before, frame_after, seed, outcome),
        outcome.filled,
        frame_before.pixels@.len() <= cache_before.lru().spec_max_bytes(),
    ensures
        cache_after.lru().view().contains_key(auto_fill_id(frame_before.width, frame_before.height, frame_before.pixels@, seed)),
        !outcome.cache_hit ==> cache_after.lru().view()[auto_fill_id(frame_before.width, frame_before.height, frame_before.pixels@, seed)]
            == frame_view(frame_after),
{
}

/// Keys of the two roles never share a message: the role byte, at a fixed
/// place, tells them apart, whatever the seeds, canvases and inputs. (That
/// their digests differ too rests on BLAKE3 telling the messages apart.)
pub proof fn lemma_roles_never_share_a_message(a: GenerativeCacheKey, b: GenerativeCacheKey)
    requires
        a.role != b.role,
    ensures
        a.message() != b.message(),
{
    let i = generative_prefix().len() + 5;
    assert(a.message()[i as int] == role_tag(a.role));
    assert(b.message()[i as int] == role_tag(b.role));
}

/// Keys of one role but different seeds never share a message: the seed's
/// bytes follow the role byte at a fixed place.
pub proof fn lemma_seeds_never_share_a_message(a: GenerativeCacheKey, b: GenerativeCacheKey)
    requires
        a.role == b.role,
        a.seed != b.seed,
    ensures
        a.message() != b.message(),
{
    let n = generative_prefix().len() + 6;
    if a.message() == b.message() {
        assert(le_u64(a.seed) =~= le_u64(b.seed)) by {
            assert forall|i: int| 0 <= i < 8 implies le_u64(a.seed)[i] == le_u64(b.seed)[i] by {
                assert(a.message()[n + i] == le_u64(a.seed)[i]);
                assert(b.message()[n + i] == le_u64(b.seed)[i]);
            }
        }
        lemma_le_u64_injective(a.seed, b.seed);
    }
}

} // verus!
