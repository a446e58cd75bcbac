//! Mask planes and the deterministic integer box blur used to soften them.
use vstd::prelude::*;

verus! {

/// A row-major `u16` matte of `width × height` samples.
#[derive(Debug, Clone, PartialEq, Eq)]
pub struct MaskPlane {
    pub width: u32,
    pub height: u32,
    pub values: Vec<u16>,
}

/// Errors of the mask stage.
#[derive(Debug, Clone, PartialEq, Eq)]
pub enum MaskError {
    InvalidPlane { width: u32, height: u32, length: usize },
    MissingSourcePayload { copy_id: String, mask_id: String },
    MissingMask { copy_id: String, mask_id: String },
    Cycle { copy_id: String, mask_id: String },
    InvalidArity { copy_id: String, mask_id: String, actual: usize },
    DimensionMismatch { expected_width: u32, expected_height: u32, actual_width: u32, actual_height: u32 },
    MemoryBudgetExceeded { required: u64, limit: u64 },
    InvalidDensity { value: String },
}

impl MaskPlane {
    /// The sample buffer holds exactly `width * height` values.
    pub open spec fn wf(&self) -> bool {
        self.values@.len() == self.width * self.height
    }

    /// Builds a plane, rejecting a buffer whose length is not `width *
    /// height` (the product saturates at `usize::MAX`).
    pub fn new(width: u32, height: u32, values: Vec<u16>) -> (result: Result<MaskPlane, MaskError>)
        ensures
            (values@.len() == width * height || (width * height > usize::MAX && values@.len() == usize::MAX))
                <==> result is Ok,
            result matches Ok(plane) ==> plane.width == width && plane.height == height && plane.values@ == values@,
            result matches Err(e) ==> e == (MaskError::InvalidPlane { width, height, length: values@.len() as usize }),
    {
        let expected = match (width as usize).checked_mul(height as usize) {
            Some(product) => product,
            None => usize::MAX,
        };
        if values.len() != expected {
            return Err(MaskError::InvalidPlane { width, height, length: values.len() });
        }
        Ok(MaskPlane { width, height, values })
    }
}

/// Fails with `DimensionMismatch` unless both planes have the same extent.
pub fn ensure_dimensions(expected: &MaskPlane, actual: &MaskPlane) -> (result: Result<(), MaskError>)
    ensures
        result is Ok <==> expected.width == actual.width && expected.height == actual.height,
        result matches Err(e) ==> e == (MaskError::DimensionMismatch {
            expected_width: expected.width,
            expected_height: expected.height,
            actual_width: actual.width,
            actual_height: actual.height,
        }),
{
    if expected.width != actual.width || expected.height != actual.height {
        Err(MaskError::DimensionMismatch {
            expected_width: expected.width,
            expected_height: expected.height,
            actual_width: actual.width,
            actual_height: actual.height,
        })
    } else {
        Ok(())
    }
}

/// First index of the clamped window of radius `r` around `x`.
pub open spec fn window_lo(x: int, r: int) -> int {
    if x >= r {
        x - r
    } else {
        0
    }
}

/// Last index of the clamped window of radius `r` around `x` in `0..n`.
pub open spec fn window_hi(x: int, r: int, n: int) -> int {
    if x + r < n - 1 {
        x + r
    } else {
        n - 1
    }
}

/// Sum of row `y` over columns `[a, b)`.
pub open spec fn row_sum(v: Seq<u16>, w: int, y: int, a: int, b: int) -> int
    decreases b - a,
{
    if b <= a {
        0
    } else {
        row_sum(v, w, y, a, b - 1) + v[y * w + b - 1]
    }
}

/// The horizontal box mean of radius `r` at `(x, y)`.
pub open spec fn row_mean(v: Seq<u16>, w: int, y: int, x: int, r: int) -> int {
    row_sum(v, w, y, window_lo(x, r), window_hi(x, r, w) + 1) / (window_hi(x, r, w) - window_lo(x, r) + 1)
}

/// Sum of the horizontal means of column `x` over rows `[a, b)`.
pub open spec fn column_sum(v: Seq<u16>, w: int, x: int, r: int, a: int, b: int) -> int
    decreases b - a,
{
    if b <= a {
        0
    } else {
        column_sum(v, w, x, r, a, b - 1) + row_mean(v, w, b - 1, x, r)
    }
}

/// One separable box-blur pass at `(x, y)`: the vertical mean of the
/// horizontal means, each over the clamped window of radius `r`.
pub open spec fn box_blur_value(v: Seq<u16>, w: int, h: int, r: int, x: int, y: int) -> int {
    column_sum(v, w, x, r, window_lo(y, r), window_hi(y, r, h) + 1) / (window_hi(y, r, h) - window_lo(y, r) + 1)
}

/// The plane after one box-blur pass of radius `r`.
pub open spec fn box_blurred(v: Seq<u16>, w: int, h: int, r: int) -> Seq<u16> {
    if r == 0 || w == 0 || h == 0 {
        v
    } else {
        Seq::new(v.len(), |i: int| box_blur_value(v, w, h, r, i % w, i / w) as u16)
    }
}

/// The plane after `passes` box-blur passes of radius `r`.
pub open spec fn box_blurred_passes(v: Seq<u16>, w: int, h: int, r: int, passes: nat) -> Seq<u16>
    decreases passes,
{
    if passes == 0 {
        v
    } else {
        box_blurred(box_blurred_passes(v, w, h, r, (passes - 1) as nat), w, h, r)
    }
}

proof fn lemma_row_sum_bounds(v: Seq<u16>, w: int, y: int, a: int, b: int)
    ensures
        0 <= row_sum(v, w, y, a, b),
        row_sum(v, w, y, a, b) <= 65535 * (if b > a { b - a } else { 0 }),
    decreases b - a,
{
    if b > a {
        lemma_row_sum_bounds(v, w, y, a, b - 1);
    }
}

proof fn lemma_row_sum_drop_first(v: Seq<u16>, w: int, y: int, a: int, b: int)
    requires
        a < b,
    ensures
        row_sum(v, w, y, a + 1, b) == row_sum(v, w, y, a, b) - v[y * w + a],
    decreases b - a,
{
    if b - 1 > a {
        lemma_row_sum_drop_first(v, w, y, a, b - 1);
        assert(row_sum(v, w, y, a + 1, b) == row_sum(v, w, y, a + 1, b - 1) + v[y * w + b - 1]);
        assert(row_sum(v, w, y, a, b) == row_sum(v, w, y, a, b - 1) + v[y * w + b - 1]);
    } else {
        assert(row_sum(v, w, y, a + 1, b) == 0);
        assert(row_sum(v, w, y, a, b) == row_sum(v, w, y, a, a) + v[y * w + a]);
    }
}

proof fn lemma_column_sum_drop_first(v: Seq<u16>, w: int, x: int, r: int, a: int, b: int)
    requires
        a < b,
    ensures
        column_sum(v, w, x, r, a + 1, b) == column_sum(v, w, x, r, a, b) - row_mean(v, w, a, x, r),
    decreases b - a,
{
    if b - 1 > a {
        lemma_column_sum_drop_first(v, w, x, r, a, b - 1);
        assert(column_sum(v, w, x, r, a + 1, b) == column_sum(v, w, x, r, a + 1, b - 1) + row_mean(v, w, b - 1, x, r));
        assert(column_sum(v, w, x, r, a, b) == column_sum(v, w, x, r, a, b - 1) + row_mean(v, w, b - 1, x, r));
    } else {
        assert(column_sum(v, w, x, r, a + 1, b) == 0);
        assert(column_sum(v, w, x, r, a, b) == column_sum(v, w, x, r, a, a) + row_mean(v, w, a, x, r));
    }
}

proof fn lemma_row_mean_bounds(v: Seq<u16>, w: int, y: int, x: int, r: int)
    requires
        0 <= x < w,
        r >= 0,
    ensures
        0 <= row_mean(v, w, y, x, r) <= 65535,
{
    let a = window_lo(x, r);
    let b = window_hi(x, r, w) + 1;
    lemma_row_sum_bounds(v, w, y, a, b);
    let s = row_sum(v, w, y, a, b);
    assert(0 <= s / (b - a) <= 65535) by (nonlinear_arith)
        requires
            b - a >= 1,
            0 <= s <= 65535 * (b - a),
    ;
}

proof fn lemma_column_sum_bounds(v: Seq<u16>, w: int, x: int, r: int, a: int, b: int)
    requires
        0 <= x < w,
        r >= 0,
    ensures
        0 <= column_sum(v, w, x, r, a, b),
        column_sum(v, w, x, r, a, b) <= 65535 * (if b > a { b - a } else { 0 }),
    decreases b - a,
{
    if b > a {
        lemma_column_sum_bounds(v, w, x, r, a, b - 1);
        lemma_row_mean_bounds(v, w, b - 1, x, r);
    }
}

/// One separable box-blur pass of radius `radius`: a horizontal sweep then a
/// vertical sweep, each averaging the clamped window (integer means).
pub fn box_blur(plane: &mut MaskPlane, radius: u32)
    requires
        old(plane).wf(),
        old(plane).values@.len() * 65536 <= u64::MAX,
        old(plane).values@.len() + radius < usize::MAX,
    ensures
        final(plane).width == old(plane).width,
        final(plane).height == old(plane).height,
        final(plane).values@ == box_blurred(old(plane).values@, old(plane).width as int, old(plane).height as int, radius as int),
{
    if radius == 0 {
        return;
    }
    let r = radius as usize;
    let w = plane.width as usize;
    let h = plane.height as usize;
    if w == 0 || h == 0 {
        return;
    }
    let ghost v = plane.values@;
    let ghost wi = w as int;
    let ghost hi = h as int;
    let ghost ri = r as int;
    let total = plane.values.len();
    assert(v.len() + r < usize::MAX);
    proof {
        assert(w <= w * h && h <= w * h) by (nonlinear_arith)
            requires
                w >= 1,
                h >= 1,
        ;
    }
    // Horizontal pass: row means into `scratch`, in row-major order.
    let mut scratch: Vec<u64> = Vec::new();
    let mut y: usize = 0;
    while y < h
        invariant
            v == plane.values@,
            total == v.len(),
            v.len() == wi * hi,
            v.len() * 65536 <= u64::MAX,
            w <= v.len(),
            h <= v.len(),
            wi == w,
            hi == h,
            ri == r,
            v.len() + r < usize::MAX,
            w >= 1,
            r >= 1,
            y <= h,
            scratch@.len() == y * w,
            forall|k: int| 0 <= k < y * w ==> #[trigger] scratch@[k] == row_mean(v, wi, k / wi, k % wi, ri),
        decreases h - y,
    {
        proof {
            assert(y * w + w <= w * h) by (nonlinear_arith)
                requires
                    y < h,
            ;
        }
        let row = y * w;
        let initial_end = if r < w - 1 {
            r
        } else {
            w - 1
        };
        let mut sum: u64 = 0;
        let mut k: usize = 0;
        while k <= initial_end
            invariant
                v == plane.values@,
                total == v.len(),
                v.len() == wi * hi,
                v.len() * 65536 <= u64::MAX,
                wi == w,
                y < h,
                row == y * w,
                row + w <= v.len(),
                initial_end < w,
                k <= initial_end + 1,
                sum == row_sum(v, wi, y as int, 0, k as int),
            decreases initial_end + 1 - k,
        {
            proof {
                lemma_row_sum_bounds(v, wi, y as int, 0, k as int);
            }
            sum = sum + plane.values[row + k] as u64;
            k += 1;
        }
        let mut count: u64 = (initial_end + 1) as u64;
        let ghost row_start = scratch@.len();
        scratch.push(sum / count);
        proof {
            assert(initial_end == window_hi(0, ri, wi));
            assert(window_lo(0, ri) == 0);
            assert((y * w) / wi == y && (y * w) % wi == 0) by (nonlinear_arith)
                requires
                    wi == w,
                    w >= 1,
            ;
        }
        let mut window_end = initial_end;
        let mut x: usize = 1;
        while x < w
            invariant
                v == plane.values@,
                total == v.len(),
                v.len() == wi * hi,
                v.len() * 65536 <= u64::MAX,
                wi == w,
                hi == h,
                ri == r,
                v.len() + r < usize::MAX,
            v.len() + r < usize::MAX,
                r >= 1,
                y < h,
                row == y * w,
                row + w <= v.len(),
                1 <= x <= w,
                window_end == window_hi(x - 1, ri, wi),
                sum == row_sum(v, wi, y as int, window_lo(x - 1, ri), window_hi(x - 1, ri, wi) + 1),
                count == window_hi(x - 1, ri, wi) - window_lo(x - 1, ri) + 1,
                scratch@.len() == y * w + x,
                forall|k: int| 0 <= k < y * w + x ==> #[trigger] scratch@[k] == row_mean(v, wi, k / wi, k % wi, ri),
            decreases w - x,
        {
            let new_end = if x + r < w - 1 {
                x + r
            } else {
                w - 1
            };
            proof {
                lemma_row_sum_bounds(v, wi, y as int, window_lo(x - 1, ri), window_hi(x - 1, ri, wi) + 1);
            }
            if new_end > window_end {
                sum = sum + plane.values[row + new_end] as u64;
                count = count + 1;
                window_end = new_end;
            }
            if x > r {
                proof {
                    assert(sum == row_sum(v, wi, y as int, window_lo(x - 1, ri), window_hi(x as int, ri, wi) + 1));
                    lemma_row_sum_drop_first(v, wi, y as int, window_lo(x - 1, ri), window_hi(x as int, ri, wi) + 1);
                    lemma_row_sum_bounds(v, wi, y as int, window_lo(x - 1, ri) + 1, window_hi(x as int, ri, wi) + 1);
                    assert(row + (x - r - 1) < v.len());
                    assert(v[y * wi + window_lo(x - 1, ri)] == v[(row + (x - r - 1)) as int]);
                }
                sum = sum - plane.values[row + (x - r - 1)] as u64;
                count = count - 1;
            }
            proof {
                assert(sum == row_sum(v, wi, y as int, window_lo(x as int, ri), window_hi(x as int, ri, wi) + 1));
                assert((y * w + x) / wi == y && (y * w + x) % wi == x) by (nonlinear_arith)
                    requires
                        wi == w,
                        x < w,
                        w >= 1,
                ;
            }
            scratch.push(sum / count);
            x += 1;
        }
        proof {
            assert((y + 1) * w == y * w + w) by (nonlinear_arith);
        }
        y += 1;
    }
    proof {
        assert(h * w == wi * hi) by (nonlinear_arith)
            requires
                wi == w,
                hi == h,
        ;
    }
    // Vertical pass: column means of `scratch` back into the plane.
    let mut x: usize = 0;
    while x < w
        invariant
            total == v.len(),
            plane.values@.len() == v.len(),
            plane.width == old(plane).width,
            plane.height == old(plane).height,
            v == old(plane).values@,
            v.len() == wi * hi,
            w <= v.len(),
            h <= v.len(),
            v.len() * 65536 <= u64::MAX,
            wi == w,
            hi == h,
            ri == r,
            v.len() + r < usize::MAX,
            w >= 1,
            h >= 1,
            r >= 1,
            x <= w,
            scratch@.len() == wi * hi,
            forall|k: int| 0 <= k < wi * hi ==> #[trigger] scratch@[k] == row_mean(v, wi, k / wi, k % wi, ri),
            forall|i: int| 0 <= i < v.len() && i % wi < x ==> #[trigger] plane.values@[i] == box_blur_value(v, wi, hi, ri, i % wi, i / wi) as u16,
        decreases w - x,
    {
        let initial_end = if r < h - 1 {
            r
        } else {
            h - 1
        };
        let mut sum: u64 = 0;
        let mut k: usize = 0;
        while k <= initial_end
            invariant
                total == v.len(),
                v.len() == wi * hi,
                v.len() * 65536 <= u64::MAX,
                wi == w,
                hi == h,
                ri == r,
                v.len() + r < usize::MAX,
            v.len() + r < usize::MAX,
                w >= 1,
                x < w,
                initial_end < h,
                k <= initial_end + 1,
                scratch@.len() == wi * hi,
                forall|k: int| 0 <= k < wi * hi ==> #[trigger] scratch@[k] == row_mean(v, wi, k / wi, k % wi, ri),
                sum == column_sum(v, wi, x as int, ri, 0, k as int),
            decreases initial_end + 1 - k,
        {
            proof {
                lemma_column_sum_bounds(v, wi, x as int, ri, 0, k as int);
                lemma_cell_index(wi, hi, x as int, k as int);
                lemma_row_mean_bounds(v, wi, k as int, x as int, ri);
            }
            sum = sum + scratch[k * w + x];
            k += 1;
        }
        let mut count: u64 = (initial_end + 1) as u64;
        proof {
            lemma_cell_index(wi, hi, x as int, 0);
            assert(initial_end == window_hi(0, ri, hi));
        }
        let ghost before_first = plane.values@;
        plane.values.set(x, (sum / count) as u16);
        proof {
            assert forall|i: int| 0 <= i < v.len() && (i % wi < x || (i % wi == x && i / wi < 1))
                implies #[trigger] plane.values@[i] == box_blur_value(v, wi, hi, ri, i % wi, i / wi) as u16 by {
                lemma_index_decompose(i, wi, hi);
                if i % wi == x && i / wi < 1 {
                    assert(i == x);
                } else {
                    assert(i != x);
                    assert(plane.values@[i] == before_first[i]);
                }
            }
        }
        let mut window_end = initial_end;
        let mut y: usize = 1;
        while y < h
            invariant
                total == v.len(),
                plane.values@.len() == v.len(),
                plane.width == old(plane).width,
                plane.height == old(plane).height,
                v == old(plane).values@,
                v.len() == wi * hi,
                w <= v.len(),
                h <= v.len(),
                v.len() * 65536 <= u64::MAX,
                wi == w,
                hi == h,
                ri == r,
                v.len() + r < usize::MAX,
            v.len() + r < usize::MAX,
                w >= 1,
                r >= 1,
                x < w,
                1 <= y <= h,
                window_end == window_hi(y - 1, ri, hi),
                sum == column_sum(v, wi, x as int, ri, window_lo(y - 1, ri), window_hi(y - 1, ri, hi) + 1),
                count == window_hi(y - 1, ri, hi) - window_lo(y - 1, ri) + 1,
                scratch@.len() == wi * hi,
                forall|k: int| 0 <= k < wi * hi ==> #[trigger] scratch@[k] == row_mean(v, wi, k / wi, k % wi, ri),
                forall|i: int| 0 <= i < v.len() && (i % wi < x || (i % wi == x && i / wi < y))
                    ==> #[trigger] plane.values@[i] == box_blur_value(v, wi, hi, ri, i % wi, i / wi) as u16,
            decreases h - y,
        {
            let new_end = if y + r < h - 1 {
                y + r
            } else {
                h - 1
            };
            proof {
                lemma_column_sum_bounds(v, wi, x as int, ri, window_lo(y - 1, ri), window_hi(y - 1, ri, hi) + 1);
            }
            if new_end > window_end {
                proof {
                    lemma_cell_index(wi, hi, x as int, new_end as int);
                    lemma_row_mean_bounds(v, wi, new_end as int, x as int, ri);
                }
                sum = sum + scratch[new_end * w + x];
                count = count + 1;
                window_end = new_end;
            }
            if y > r {
                proof {
                    assert(sum == column_sum(v, wi, x as int, ri, window_lo(y - 1, ri), window_hi(y as int, ri, hi) + 1));
                    lemma_column_sum_drop_first(v, wi, x as int, ri, window_lo(y - 1, ri), window_hi(y as int, ri, hi) + 1);
                    lemma_column_sum_bounds(v, wi, x as int, ri, window_lo(y - 1, ri) + 1, window_hi(y as int, ri, hi) + 1);
                    lemma_cell_index(wi, hi, x as int, (y - r - 1) as int);
                }
                sum = sum - scratch[(y - r - 1) * w + x];
                count = count - 1;
            }
            proof {
                lemma_cell_index(wi, hi, x as int, y as int);
            }
            let ghost before_set = plane.values@;
            plane.values.set(y * w + x, (sum / count) as u16);
            proof {
                assert forall|i: int| 0 <= i < v.len() && (i % wi < x || (i % wi == x && i / wi < y + 1))
                    implies #[trigger] plane.values@[i] == box_blur_value(v, wi, hi, ri, i % wi, i / wi) as u16 by {
                    lemma_index_decompose(i, wi, hi);
                    if i % wi == x && i / wi == y {
                        assert(i == y * w + x);
                    } else {
                        assert(i != y * w + x);
                        assert(plane.values@[i] == before_set[i]);
                    }
                }
            }
            y += 1;
        }
        proof {
            assert forall|i: int| 0 <= i < v.len() && i % wi < x + 1
                implies #[trigger] plane.values@[i] == box_blur_value(v, wi, hi, ri, i % wi, i / wi) as u16 by {
                lemma_index_decompose(i, wi, hi);
            }
        }
        x += 1;
    }
    proof {
        assert(plane.values@ =~= box_blurred(v, wi, hi, ri));
    }
}

/// Every in-bounds index is the cell `(i % w, i / w)`.
proof fn lemma_index_decompose(i: int, w: int, h: int)
    requires
        0 <= i < w * h,
        w >= 1,
    ensures
        i == (i / w) * w + i % w,
        0 <= i % w < w,
        0 <= i / w < h,
{
    assert(i == (i / w) * w + i % w && 0 <= i % w < w && 0 <= i / w < h) by (nonlinear_arith)
        requires
            0 <= i < w * h,
            w >= 1,
    ;
}

/// Index facts for cell `(x, y)` of a `w × h` row-major plane.
proof fn lemma_cell_index(w: int, h: int, x: int, y: int)
    requires
        0 <= x < w,
        0 <= y < h,
    ensures
        0 <= y * w + x < w * h,
        (y * w + x) / w == y,
        (y * w + x) % w == x,
{
    assert(0 <= y * w + x < w * h) by (nonlinear_arith)
        requires
            0 <= x < w,
            0 <= y < h,
    ;
    assert((y * w + x) / w == y && (y * w + x) % w == x) by (nonlinear_arith)
        requires
            0 <= x < w,
            0 <= y,
    ;
}

/// Applies [`box_blur`] `passes` times.
pub fn box_blur_passes(plane: &mut MaskPlane, radius: u32, passes: usize)
    requires
        old(plane).wf(),
        old(plane).values@.len() * 65536 <= u64::MAX,
        old(plane).values@.len() + radius < usize::MAX,
    ensures
        final(plane).width == old(plane).width,
        final(plane).height == old(plane).height,
        final(plane).values@ == box_blurred_passes(
            old(plane).values@,
            old(plane).width as int,
            old(plane).height as int,
            radius as int,
            passes as nat,
        ),
{
    let ghost v = plane.values@;
    let mut done: usize = 0;
    while done < passes
        invariant
            done <= passes,
            plane.width == old(plane).width,
            plane.height == old(plane).height,
            plane.wf(),
            plane.values@.len() == v.len(),
            v.len() * 65536 <= u64::MAX,
            v.len() + radius < usize::MAX,
            v == old(plane).values@,
            plane.values@ == box_blurred_passes(v, plane.width as int, plane.height as int, radius as int, done as nat),
        decreases passes - done,
    {
        box_blur(plane, radius);
        done += 1;
    }
}

} // verus!
