//! Row-major cell buffers shared by RGBA frames (four samples per pixel)
//! and mask planes (one sample per pixel): addressing and mirroring.
use vstd::prelude::*;

verus! {

/// Index of sample `c` of cell `(x, y)` in a row-major buffer of `width`
/// cells per row and `k` samples per cell.
pub open spec fn cell(width: int, k: int, x: int, y: int, c: int) -> int {
    (y * width + x) * k + c
}

/// In-bounds cells address in-bounds samples, and distinct cells address
/// distinct samples.
pub proof fn lemma_cell_bounds(width: int, height: int, k: int, x: int, y: int, c: int)
    requires
        0 <= x < width,
        0 <= y < height,
        0 <= c < k,
    ensures
        0 <= cell(width, k, x, y, c) < width * height * k,
        cell(width, k, x, y, c) == y * width * k + x * k + c,
        0 <= y * width + x < width * height,
        width * height <= width * height * k,
        (y * width + x) * k <= cell(width, k, x, y, c),
{
    assert(width * height <= width * height * k) by (nonlinear_arith)
        requires
            0 <= y < height,
            0 <= x < width,
            0 <= c < k,
    ;
    assert(0 <= y * width) by (nonlinear_arith)
        requires
            0 <= y,
            0 <= width,
    ;
    assert(y * width + x < width * height) by (nonlinear_arith)
        requires
            0 <= x < width,
            0 <= y < height,
    ;
    assert(0 <= (y * width + x) * k + c < width * height * k) by (nonlinear_arith)
        requires
            0 <= y * width + x < width * height,
            0 <= c < k,
    ;
    assert((y * width + x) * k + c == y * width * k + x * k + c) by (nonlinear_arith);
}

/// Two cells address the same sample only if they are the same cell and
/// sample.
pub proof fn lemma_cell_injective(width: int, k: int, x1: int, y1: int, c1: int, x2: int, y2: int, c2: int)
    requires
        0 <= x1 < width,
        0 <= x2 < width,
        0 <= y1,
        0 <= y2,
        0 <= c1 < k,
        0 <= c2 < k,
        cell(width, k, x1, y1, c1) == cell(width, k, x2, y2, c2),
    ensures
        x1 == x2 && y1 == y2 && c1 == c2,
{
    let p1 = y1 * width + x1;
    let p2 = y2 * width + x2;
    assert(p1 == p2 && c1 == c2) by (nonlinear_arith)
        requires
            p1 * k + c1 == p2 * k + c2,
            0 <= c1 < k,
            0 <= c2 < k,
            0 <= p1,
            0 <= p2,
    ;
    assert(y1 == y2 && x1 == x2) by (nonlinear_arith)
        requires
            y1 * width + x1 == y2 * width + x2,
            0 <= x1 < width,
            0 <= x2 < width,
            0 <= y1,
            0 <= y2,
    ;
}

/// `new` is `old` mirrored left-right.
pub open spec fn is_hflip<T>(old: Seq<T>, new: Seq<T>, width: int, height: int, k: int) -> bool {
    &&& new.len() == old.len()
    &&& forall|x: int, y: int, c: int|
        0 <= x < width && 0 <= y < height && 0 <= c < k ==> #[trigger] new[cell(width, k, x, y, c)]
            == old[cell(width, k, width - 1 - x, y, c)]
}

/// `new` is `old` mirrored top-bottom.
pub open spec fn is_vflip<T>(old: Seq<T>, new: Seq<T>, width: int, height: int, k: int) -> bool {
    &&& new.len() == old.len()
    &&& forall|x: int, y: int, c: int|
        0 <= x < width && 0 <= y < height && 0 <= c < k ==> #[trigger] new[cell(width, k, x, y, c)]
            == old[cell(width, k, x, height - 1 - y, c)]
}

/// Exchanges two entries of a vector.
fn swap_entries<T: Copy>(values: &mut Vec<T>, a: usize, b: usize)
    requires
        a < old(values)@.len(),
        b < old(values)@.len(),
    ensures
        final(values)@ == old(values)@.update(a as int, old(values)@[b as int]).update(b as int, old(values)@[a as int]),
{
    let first = values[a];
    let second = values[b];
    values.set(a, second);
    values.set(b, first);
}

/// Mirrors a row-major buffer of `width × height` cells of `k` samples
/// left-right, in place.
pub fn mirror_horizontal<T: Copy>(values: &mut Vec<T>, width: usize, height: usize, k: usize)
    requires
        old(values)@.len() == width * height * k,
        k >= 1,
    ensures
        is_hflip(old(values)@, final(values)@, width as int, height as int, k as int),
{
    let total = values.len();
    let ghost orig = values@;
    let ghost w = width as int;
    let ghost h = height as int;
    let ghost kk = k as int;
    let half = width / 2;
    let mut y: usize = 0;
    while y < height
        invariant
            orig.len() == w * h * kk,
            total == orig.len(),
            values@.len() == orig.len(),
            w == width,
            h == height,
            kk == k,
            k >= 1,
            half == width / 2,
            y <= height,
            forall|x: int, yy: int, c: int|
                0 <= x < w && 0 <= yy < h && 0 <= c < kk ==> #[trigger] values@[cell(w, kk, x, yy, c)]
                    == if yy < y { orig[cell(w, kk, w - 1 - x, yy, c)] } else { orig[cell(w, kk, x, yy, c)] },
        decreases height - y,
    {
        let mut x: usize = 0;
        while x < half
            invariant
                orig.len() == w * h * kk,
                total == orig.len(),
                values@.len() == orig.len(),
                w == width,
                h == height,
                kk == k,
                k >= 1,
                half == width / 2,
                y < height,
                x <= half,
                forall|xx: int, yy: int, c: int|
                    0 <= xx < w && 0 <= yy < h && 0 <= c < kk ==> #[trigger] values@[cell(w, kk, xx, yy, c)]
                        == if yy < y || (yy == y && (xx < x || xx >= w - x)) {
                        orig[cell(w, kk, w - 1 - xx, yy, c)]
                    } else {
                        orig[cell(w, kk, xx, yy, c)]
                    },
            decreases half - x,
        {
            let mut c: usize = 0;
            while c < k
                invariant
                    orig.len() == w * h * kk,
                    total == orig.len(),
                    values@.len() == orig.len(),
                    w == width,
                    h == height,
                    kk == k,
                    k >= 1,
                    half == width / 2,
                    y < height,
                    x < half,
                    c <= k,
                    forall|xx: int, yy: int, cc: int|
                        0 <= xx < w && 0 <= yy < h && 0 <= cc < kk ==> #[trigger] values@[cell(w, kk, xx, yy, cc)]
                            == if yy < y || (yy == y && (xx < x || xx >= w - x || ((xx == x || xx == w - 1 - x) && cc < c))) {
                            orig[cell(w, kk, w - 1 - xx, yy, cc)]
                        } else {
                            orig[cell(w, kk, xx, yy, cc)]
                        },
                decreases k - c,
            {
                proof {
                    lemma_cell_bounds(w, h, kk, x as int, y as int, c as int);
                    lemma_cell_bounds(w, h, kk, w - 1 - x, y as int, c as int);
                }
                let row = y * width;
                let a = (row + x) * k + c;
                let b = (row + (width - 1 - x)) * k + c;
                let ghost before = values@;
                swap_entries(values, a, b);
                proof {
                    assert forall|xx: int, yy: int, cc: int|
                        0 <= xx < w && 0 <= yy < h && 0 <= cc < kk implies #[trigger] values@[cell(w, kk, xx, yy, cc)]
                            == if yy < y || (yy == y && (xx < x || xx >= w - x || ((xx == x || xx == w - 1 - x) && cc < c + 1))) {
                            orig[cell(w, kk, w - 1 - xx, yy, cc)]
                        } else {
                            orig[cell(w, kk, xx, yy, cc)]
                        } by {
                        lemma_cell_bounds(w, h, kk, xx, yy, cc);
                        if cell(w, kk, xx, yy, cc) == a as int {
                            lemma_cell_injective(w, kk, xx, yy, cc, x as int, y as int, c as int);
                        } else if cell(w, kk, xx, yy, cc) == b as int {
                            lemma_cell_injective(w, kk, xx, yy, cc, w - 1 - x, y as int, c as int);
                        }
                        assert(before[cell(w, kk, xx, yy, cc)] == (if yy < y || (yy == y && (xx < x || xx >= w - x || ((xx == x || xx == w - 1 - x) && cc < c))) {
                            orig[cell(w, kk, w - 1 - xx, yy, cc)]
                        } else {
                            orig[cell(w, kk, xx, yy, cc)]
                        }));
                        assert(before[a as int] == orig[cell(w, kk, x as int, y as int, c as int)]);
                        assert(before[b as int] == orig[cell(w, kk, w - 1 - x, y as int, c as int)]);
                    }
                }
                c += 1;
            }
            x += 1;
        }
        proof {
            assert forall|xx: int, yy: int, c: int|
                0 <= xx < w && 0 <= yy < h && 0 <= c < kk implies #[trigger] values@[cell(w, kk, xx, yy, c)]
                    == if yy < y + 1 { orig[cell(w, kk, w - 1 - xx, yy, c)] } else { orig[cell(w, kk, xx, yy, c)] } by {
                if yy == y && xx >= half && xx < w - half {
                    assert(xx == w - 1 - xx);
                }
            }
        }
        y += 1;
    }
}

/// Mirrors a row-major buffer of `width × height` cells of `k` samples
/// top-bottom, in place.
pub fn mirror_vertical<T: Copy>(values: &mut Vec<T>, width: usize, height: usize, k: usize)
    requires
        old(values)@.len() == width * height * k,
        k >= 1,
    ensures
        is_vflip(old(values)@, final(values)@, width as int, height as int, k as int),
{
    let total = values.len();
    let ghost orig = values@;
    let ghost w = width as int;
    let ghost h = height as int;
    let ghost kk = k as int;
    let half = height / 2;
    let mut y: usize = 0;
    while y < half
        invariant
            orig.len() == w * h * kk,
            total == orig.len(),
            values@.len() == orig.len(),
            w == width,
            h == height,
            kk == k,
            k >= 1,
            half == height / 2,
            y <= half,
            forall|x: int, yy: int, c: int|
                0 <= x < w && 0 <= yy < h && 0 <= c < kk ==> #[trigger] values@[cell(w, kk, x, yy, c)]
                    == if yy < y || yy >= h - y { orig[cell(w, kk, x, h - 1 - yy, c)] } else { orig[cell(w, kk, x, yy, c)] },
        decreases half - y,
    {
        let mut x: usize = 0;
        while x < width
            invariant
                orig.len() == w * h * kk,
                total == orig.len(),
                values@.len() == orig.len(),
                w == width,
                h == height,
                kk == k,
                k >= 1,
                half == height / 2,
                y < half,
                x <= width,
                forall|xx: int, yy: int, c: int|
                    0 <= xx < w && 0 <= yy < h && 0 <= c < kk ==> #[trigger] values@[cell(w, kk, xx, yy, c)]
                        == if yy < y || yy >= h - y || ((yy == y || yy == h - 1 - y) && xx < x) {
                        orig[cell(w, kk, xx, h - 1 - yy, c)]
                    } else {
                        orig[cell(w, kk, xx, yy, c)]
                    },
            decreases width - x,
        {
            let mut c: usize = 0;
            while c < k
                invariant
                    orig.len() == w * h * kk,
                    total == orig.len(),
                    values@.len() == orig.len(),
                    w == width,
                    h == height,
                    kk == k,
                    k >= 1,
                    half == height / 2,
                    y < half,
                    x < width,
                    c <= k,
                    forall|xx: int, yy: int, cc: int|
                        0 <= xx < w && 0 <= yy < h && 0 <= cc < kk ==> #[trigger] values@[cell(w, kk, xx, yy, cc)]
                            == if yy < y || yy >= h - y || ((yy == y || yy == h - 1 - y) && (xx < x || (xx == x && cc < c))) {
                            orig[cell(w, kk, xx, h - 1 - yy, cc)]
                        } else {
                            orig[cell(w, kk, xx, yy, cc)]
                        },
                decreases k - c,
            {
                proof {
                    lemma_cell_bounds(w, h, kk, x as int, y as int, c as int);
                    lemma_cell_bounds(w, h, kk, x as int, h - 1 - y, c as int);
                }
                let a = (y * width + x) * k + c;
                let b = ((height - 1 - y) * width + x) * k + c;
                let ghost before = values@;
                swap_entries(values, a, b);
                proof {
                    assert forall|xx: int, yy: int, cc: int|
                        0 <= xx < w && 0 <= yy < h && 0 <= cc < kk implies #[trigger] values@[cell(w, kk, xx, yy, cc)]
                            == if yy < y || yy >= h - y || ((yy == y || yy == h - 1 - y) && (xx < x || (xx == x && cc < c + 1))) {
                            orig[cell(w, kk, xx, h - 1 - yy, cc)]
                        } else {
                            orig[cell(w, kk, xx, yy, cc)]
                        } by {
                        lemma_cell_bounds(w, h, kk, xx, yy, cc);
                        if cell(w, kk, xx, yy, cc) == a as int {
                            lemma_cell_injective(w, kk, xx, yy, cc, x as int, y as int, c as int);
                        } else if cell(w, kk, xx, yy, cc) == b as int {
                            lemma_cell_injective(w, kk, xx, yy, cc, x as int, h - 1 - y, c as int);
                        }
                        assert(before[cell(w, kk, xx, yy, cc)] == (if yy < y || yy >= h - y || ((yy == y || yy == h - 1 - y) && (xx < x || (xx == x && cc < c))) {
                            orig[cell(w, kk, xx, h - 1 - yy, cc)]
                        } else {
                            orig[cell(w, kk, xx, yy, cc)]
                        }));
                        assert(before[a as int] == orig[cell(w, kk, x as int, y as int, c as int)]);
                        assert(before[b as int] == orig[cell(w, kk, x as int, h - 1 - y, c as int)]);
                    }
                }
                c += 1;
            }
            x += 1;
        }
        y += 1;
    }
    proof {
        assert forall|x: int, yy: int, c: int|
            0 <= x < w && 0 <= yy < h && 0 <= c < kk implies #[trigger] values@[cell(w, kk, x, yy, c)]
                == orig[cell(w, kk, x, h - 1 - yy, c)] by {
            if yy >= half && yy < h - half {
                assert(yy == h - 1 - yy);
            }
        }
    }
}


/// The extent of a `w × h` buffer after `turn` quarter turns clockwise.
pub open spec fn turned_extent(turn: int, w: int, h: int) -> (int, int) {
    if turn % 2 == 1 {
        (h, w)
    } else {
        (w, h)
    }
}

/// The source cell that lands on `(dx, dy)` when a `w × h` buffer is turned
/// clockwise by `turn` quarter turns.
pub open spec fn turned_source(turn: int, w: int, h: int, dx: int, dy: int) -> (int, int) {
    if turn == 1 {
        (dy, h - 1 - dx)
    } else if turn == 2 {
        (w - 1 - dx, h - 1 - dy)
    } else if turn == 3 {
        (w - 1 - dy, dx)
    } else {
        (dx, dy)
    }
}

/// `new` is `old` (`w × h` cells of `k` samples) turned clockwise by `turn`
/// quarter turns.
pub open spec fn is_turned<T>(old: Seq<T>, new: Seq<T>, w: int, h: int, k: int, turn: int) -> bool {
    let ow = turned_extent(turn, w, h).0;
    let oh = turned_extent(turn, w, h).1;
    &&& new.len() == ow * oh * k
    &&& forall|dx: int, dy: int, c: int|
        0 <= dx < ow && 0 <= dy < oh && 0 <= c < k ==> #[trigger] new[cell(ow, k, dx, dy, c)] == old[cell(
            w,
            k,
            turned_source(turn, w, h, dx, dy).0,
            turned_source(turn, w, h, dx, dy).1,
            c,
        )]
}

proof fn lemma_slot_before(i: int, dx: int, k: int, c: int)
    requires
        0 <= i < dx,
        0 <= c < k,
    ensures
        0 <= i * k + c < dx * k,
{
    assert(0 <= i * k + c < dx * k) by (nonlinear_arith)
        requires
            0 <= i < dx,
            0 <= c < k,
    ;
}

proof fn lemma_turned_source_bounds(turn: int, w: int, h: int, dx: int, dy: int)
    requires
        0 <= turn < 4,
        0 <= dx < turned_extent(turn, w, h).0,
        0 <= dy < turned_extent(turn, w, h).1,
    ensures
        0 <= turned_source(turn, w, h, dx, dy).0 < w,
        0 <= turned_source(turn, w, h, dx, dy).1 < h,
{
}

/// A row-major buffer of `w × h` cells of `k` samples turned clockwise by
/// `turn` quarter turns (exact moves, no resampling).
pub fn rotate_cells<T: Copy>(values: &Vec<T>, w: usize, h: usize, k: usize, turn: u32) -> (out: Vec<T>)
    requires
        values@.len() == w * h * k,
        turn < 4,
    ensures
        is_turned(values@, out@, w as int, h as int, k as int, turn as int),
{
    let total = values.len();
    let (ow, oh) = if turn % 2 == 1 { (h, w) } else { (w, h) };
    let ghost gw = w as int;
    let ghost gh = h as int;
    let ghost gk = k as int;
    let mut out: Vec<T> = Vec::new();
    let mut dy: usize = 0;
    while dy < oh
        invariant
            total == values@.len(),
            total == gw * gh * gk,
            gw == w,
            gh == h,
            gk == k,
            turn < 4,
            (ow as int, oh as int) == turned_extent(turn as int, gw, gh),
            dy <= oh,
            out@.len() == dy * ow * k,
            forall|i: int, j: int, c: int|
                0 <= i < ow && 0 <= j < dy && 0 <= c < k ==> #[trigger] out@[cell(ow as int, gk, i, j, c)] == values@[cell(
                    gw,
                    gk,
                    turned_source(turn as int, gw, gh, i, j).0,
                    turned_source(turn as int, gw, gh, i, j).1,
                    c,
                )],
        decreases oh - dy,
    {
        let ghost before = out@;
        let mut dx: usize = 0;
        while dx < ow
            invariant
                total == values@.len(),
                total == gw * gh * gk,
                gw == w,
                gh == h,
                gk == k,
                turn < 4,
                (ow as int, oh as int) == turned_extent(turn as int, gw, gh),
                dy < oh,
                dx <= ow,
                out@.len() == dy * ow * k + dx * k,
                out@.subrange(0, dy * ow * k) == before,
                forall|i: int, c: int|
                    0 <= i < dx && 0 <= c < k ==> #[trigger] out@[dy * ow * k + i * k + c] == values@[cell(
                        gw,
                        gk,
                        turned_source(turn as int, gw, gh, i, dy as int).0,
                        turned_source(turn as int, gw, gh, i, dy as int).1,
                        c,
                    )],
            decreases ow - dx,
        {
            let (sx, sy) = if turn == 1 {
                (dy, h - 1 - dx)
            } else if turn == 2 {
                (w - 1 - dx, h - 1 - dy)
            } else if turn == 3 {
                (w - 1 - dy, dx)
            } else {
                (dx, dy)
            };
            proof {
                assert((sx as int, sy as int) == turned_source(turn as int, gw, gh, dx as int, dy as int));
                lemma_turned_source_bounds(turn as int, gw, gh, dx as int, dy as int);
            }
            let mut c: usize = 0;
            while c < k
                invariant
                    total == values@.len(),
                    total == gw * gh * gk,
                    gw == w,
                    gh == h,
                    gk == k,
                    turn < 4,
                    (ow as int, oh as int) == turned_extent(turn as int, gw, gh),
                    dy < oh,
                    dx < ow,
                    sx < gw,
                    sy < gh,
                    (sx as int, sy as int) == turned_source(turn as int, gw, gh, dx as int, dy as int),
                    c <= k,
                    out@.len() == dy * ow * k + dx * k + c,
                    out@.subrange(0, dy * ow * k) == before,
                    forall|i: int, cc: int|
                        0 <= i < dx && 0 <= cc < k ==> #[trigger] out@[dy * ow * k + i * k + cc] == values@[cell(
                            gw,
                            gk,
                            turned_source(turn as int, gw, gh, i, dy as int).0,
                            turned_source(turn as int, gw, gh, i, dy as int).1,
                            cc,
                        )],
                    forall|cc: int| 0 <= cc < c ==> #[trigger] out@[dy * ow * k + dx * k + cc] == values@[cell(
                        gw,
                        gk,
                        sx as int,
                        sy as int,
                        cc,
                    )],
                decreases k - c,
            {
                proof {
                    lemma_cell_bounds(gw, gh, gk, sx as int, sy as int, c as int);
                }
                let index = (sy * w + sx) * k + c;
                let ghost prev = out@;
                out.push(values[index]);
                proof {
                    assert(out@.subrange(0, dy * ow * k) =~= before);
                    assert forall|i: int, cc: int| 0 <= i < dx && 0 <= cc < k implies #[trigger] out@[dy * ow * k + i * k + cc]
                        == prev[dy * ow * k + i * k + cc] by {
                        lemma_slot_before(i, dx as int, k as int, cc);
                    }
                }
                c += 1;
            }
            proof {
                assert(out@.len() == dy * ow * k + (dx + 1) * k) by (nonlinear_arith)
                    requires
                        out@.len() == dy * ow * k + dx * k + k,
                ;
            }
            dx += 1;
        }
        proof {
            assert forall|i: int, j: int, c: int|
                0 <= i < ow && 0 <= j < dy + 1 && 0 <= c < k implies #[trigger] out@[cell(ow as int, gk, i, j, c)] == values@[cell(
                    gw,
                    gk,
                    turned_source(turn as int, gw, gh, i, j).0,
                    turned_source(turn as int, gw, gh, i, j).1,
                    c,
                )] by {
                lemma_cell_bounds(ow as int, (dy + 1) as int, gk, i, j, c);
                if j < dy {
                    lemma_cell_bounds(ow as int, dy as int, gk, i, j, c);
                    assert(ow * dy * gk == dy * ow * k) by (nonlinear_arith)
                        requires
                            gk == k,
                    ;
                    assert(out@[cell(ow as int, gk, i, j, c)] == out@.subrange(0, dy * ow * k)[cell(ow as int, gk, i, j, c)]);
                } else {
                    assert(cell(ow as int, gk, i, j, c) == dy * ow * k + i * k + c) by (nonlinear_arith)
                        requires
                            j == dy,
                            cell(ow as int, gk, i, j, c) == j * ow * gk + i * gk + c,
                            gk == k,
                    ;
                }
            }
            assert(out@.len() == (dy + 1) * ow * k) by (nonlinear_arith)
                requires
                    out@.len() == dy * ow * k + ow * k,
            ;
        }
        dy += 1;
    }
    proof {
        assert(out@.len() == ow * oh * k) by (nonlinear_arith)
            requires
                out@.len() == dy * ow * k,
                dy == oh,
        ;
    }
    out
}

} // verus!
