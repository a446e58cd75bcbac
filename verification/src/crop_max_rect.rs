//! Default maximum-content crop.
//!
//! After a lens and/or perspective correction the resampled frame contains
//! transparent wedges. Unless the user sets an explicit crop, the default
//! crop is the largest axis-aligned rectangle that contains only content and
//! stays inside the frame. A frame whose pixels are all content yields the
//! full frame; an all-transparent frame has no content rectangle.
use crate::frame::{lemma_offset_in_bounds, ImageFrame};
use vstd::prelude::*;

verus! {

/// Minimum alpha for a pixel to count as content.
pub const CONTENT_ALPHA_MIN: u8 = 1;

/// Pixel rectangle `(x, y, width, height)` in frame coordinates.
pub type PixelRect = (u32, u32, u32, u32);

/// Pixel `(x, y)` carries content (`alpha >= CONTENT_ALPHA_MIN`).
pub open spec fn is_content(frame: &ImageFrame, x: int, y: int) -> bool {
    frame.channel(x, y, 3) >= CONTENT_ALPHA_MIN
}

/// `(x, y, w, h)` lies inside the frame and every pixel in it is content.
pub open spec fn content_rect(frame: &ImageFrame, x: int, y: int, w: int, h: int) -> bool {
    &&& 0 <= x
    &&& 0 <= y
    &&& 0 <= w
    &&& 0 <= h
    &&& x + w <= frame.width
    &&& y + h <= frame.height
    &&& forall|i: int, j: int| x <= i < x + w && y <= j < y + h ==> #[trigger] is_content(frame, i, j)
}

/// The frame holds at least one content pixel.
pub open spec fn has_content(frame: &ImageFrame) -> bool {
    exists|x: int, y: int| 0 <= x < frame.width && 0 <= y < frame.height && #[trigger] is_content(frame, x, y)
}

/// Number of consecutive content pixels in column `x` ending just above row `y`.
pub open spec fn column_run(frame: &ImageFrame, x: int, y: int) -> nat
    decreases y,
{
    if y <= 0 {
        0
    } else if is_content(frame, x, y - 1) {
        column_run(frame, x, y - 1) + 1
    } else {
        0
    }
}

proof fn lemma_column_run(frame: &ImageFrame, x: int, y: int, k: int)
    requires
        0 <= y,
        0 <= k,
    ensures
        column_run(frame, x, y) <= y,
        column_run(frame, x, y) >= k <==> (k <= y && forall|j: int| y - k <= j < y ==> #[trigger] is_content(frame, x, j)),
    decreases y,
{
    if y > 0 {
        lemma_column_run(frame, x, y - 1, 0);
        if k > 0 {
            lemma_column_run(frame, x, y - 1, k - 1);
        }
        if k > 0 && !is_content(frame, x, y - 1) {
            assert(!(forall|j: int| y - k <= j < y ==> #[trigger] is_content(frame, x, j)));
        }
        if k > 0 && is_content(frame, x, y - 1) && k <= y && (forall|j: int| y - k <= j < y ==> #[trigger] is_content(frame, x, j)) {
            assert forall|j: int| y - 1 - (k - 1) <= j < y - 1 implies #[trigger] is_content(frame, x, j) by {
                assert(y - k <= j < y);
            }
        }
    }
}

/// `rect` is an all-content rectangle of maximal area.
pub open spec fn maximum_content_rect_spec(frame: &ImageFrame, rect: PixelRect) -> bool {
    let (x, y, w, h) = rect;
    &&& w >= 1
    &&& h >= 1
    &&& content_rect(frame, x as int, y as int, w as int, h as int)
    &&& forall|x2: int, y2: int, w2: int, h2: int|
        #![trigger content_rect(frame, x2, y2, w2, h2)]
        content_rect(frame, x2, y2, w2, h2) ==> w2 * h2 <= w * h
}

/// Largest-area axis-aligned rectangle of pixels that all carry content,
/// constrained to the frame. `None` when the frame has no content at all
/// (including a zero-extent frame); callers then keep the full frame.
///
/// Among rectangles of the largest area the choice is fixed: the one whose
/// bottom edge is highest, then, of those, the one whose right edge lies
/// furthest left, then the tallest (the first maximum met when the rows
/// are scanned top to bottom and each row's histogram left to right).
pub fn maximum_content_rect(frame: &ImageFrame) -> (result: Option<PixelRect>)
    requires
        frame.wf(),
    ensures
        result is None <==> !has_content(frame),
        result matches Some(rect) ==> maximum_content_rect_spec(frame, rect),
        result matches Some(rect) ==> forall|x2: int, y2: int, w2: int, h2: int|
            #![trigger content_rect(frame, x2, y2, w2, h2)]
            content_rect(frame, x2, y2, w2, h2) && w2 * h2 == rect.2 * rect.3 ==> y2 + h2 >= rect.1 + rect.3,
        result matches Some(rect) ==> forall|x2: int, y2: int, w2: int, h2: int|
            #![trigger content_rect(frame, x2, y2, w2, h2)]
            content_rect(frame, x2, y2, w2, h2) && w2 >= 1 && h2 >= 1 && w2 * h2 == rect.2 * rect.3 && y2 + h2 == rect.1
                + rect.3 ==> x2 + w2 >= rect.0 + rect.2 && (x2 + w2 == rect.0 + rect.2 ==> h2 <= rect.3),
{
    let width = frame.width as usize;
    let height = frame.height as usize;
    if width == 0 || height == 0 {
        return None;
    }
    let total = frame.pixels.len();
    proof {
        assert(width * height <= width * height * 4) by (nonlinear_arith)
            requires
                width * height >= 0,
        ;
        assert(width <= width * height) by (nonlinear_arith)
            requires
                height >= 1,
                width >= 0,
        ;
    }
    let mut heights: Vec<usize> = Vec::new();
    let mut x0: usize = 0;
    while x0 < width
        invariant
            x0 <= width,
            heights@.len() == x0,
            forall|k: int| 0 <= k < x0 ==> heights@[k] == column_run(frame, k, 0),
        decreases width - x0,
    {
        heights.push(0);
        x0 += 1;
    }
    let mut best: Option<(usize, usize, usize)> = None;
    let mut best_area: usize = 0;
    let mut best_top: usize = 0;
    let mut y: usize = 0;
    while y < height
        invariant
            frame.wf(),
            width == frame.width,
            height == frame.height,
            width > 0,
            height > 0,
            width * height * 4 <= usize::MAX,
            width * height <= usize::MAX,
            width < usize::MAX,
            y <= height,
            heights@.len() == width,
            forall|k: int| 0 <= k < width ==> heights@[k] == column_run(frame, k, y as int),
            best is None <==> best_area == 0,
            best matches Some((left, w, h)) ==> {
                &&& w >= 1
                &&& h >= 1
                &&& content_rect(frame, left as int, best_top as int, w as int, h as int)
                &&& best_area == w * h
            },
            forall|x2: int, y2: int, w2: int, h2: int|
                #![trigger content_rect(frame, x2, y2, w2, h2)]
                content_rect(frame, x2, y2, w2, h2) && y2 + h2 <= y ==> w2 * h2 <= best_area,
            best_area > 0 ==> has_content(frame),
            best matches Some((left, w, h)) ==> best_top + h <= y,
            best matches Some((left, w, h)) ==> forall|x2: int, y2: int, w2: int, h2: int|
                #![trigger content_rect(frame, x2, y2, w2, h2)]
                content_rect(frame, x2, y2, w2, h2) && y2 + h2 <= y && w2 * h2 == best_area ==> y2 + h2 >= best_top + h,
            best matches Some((left, w, h)) ==> forall|x2: int, y2: int, w2: int, h2: int|
                #![trigger content_rect(frame, x2, y2, w2, h2)]
                content_rect(frame, x2, y2, w2, h2) && w2 >= 1 && h2 >= 1 && w2 * h2 == best_area && y2 + h2 == best_top + h
                    ==> x2 + w2 >= left + w && (x2 + w2 == left + w ==> h2 <= h),
        decreases height - y,
    {
        proof {
            assert(y * width + width <= width * height) by (nonlinear_arith)
                requires
                    y < height,
            ;
        }
        let row = y * width;
        let mut x: usize = 0;
        while x < width
            invariant
                frame.wf(),
                width == frame.width,
                height == frame.height,
                width * height * 4 <= usize::MAX,
                y < height,
                row == y * width,
                x <= width,
                heights@.len() == width,
                forall|k: int| 0 <= k < x ==> heights@[k] == column_run(frame, k, y + 1),
                forall|k: int| x <= k < width ==> heights@[k] == column_run(frame, k, y as int),
            decreases width - x,
        {
            proof {
                lemma_offset_in_bounds(width as int, height as int, x as int, y as int, 3);
                lemma_column_run(frame, x as int, y as int, 0);
            }
            let alpha = frame.pixels[(row + x) * 4 + 3];
            assert(alpha == frame.channel(x as int, y as int, 3));
            if alpha >= CONTENT_ALPHA_MIN {
                let h = heights[x];
                heights.set(x, h + 1);
            } else {
                heights.set(x, 0);
            }
            x += 1;
        }
        proof {
            assert forall|k: int| 0 <= k < heights@.len() implies heights@.len() * heights@[k] <= usize::MAX by {
                lemma_column_run(frame, k, y + 1, 0);
                assert(width * heights@[k] <= width * height) by (nonlinear_arith)
                    requires
                        heights@[k] <= height,
                ;
            }
        }
        let found = largest_histogram_rect(heights.as_slice());
        match found {
            Some((left, rect_width, rect_height)) => {
                proof {
                    lemma_row_rect(frame, heights@, y as int, left as int, rect_width as int, rect_height as int);
                    assert(rect_width * rect_height <= width * height) by (nonlinear_arith)
                        requires
                            rect_width <= width,
                            rect_height <= height,
                    ;
                }
                let area = rect_width * rect_height;
                let ghost old_area = best_area;
                let ghost old_best = best;
                let ghost old_top = best_top;
                if area > best_area {
                    best_area = area;
                    best_top = y + 1 - rect_height;
                    best = Some((left, rect_width, rect_height));
                }
                proof {
                    assert forall|l: int, w: int, h: int|
                        #![trigger bars_fit(heights@, l, w, h)]
                        bars_fit(heights@, l, w, h) && h >= 1 && w >= 1 implies w * h <= best_area by {
                        assert(w * h <= rect_width * rect_height);
                    }
                    lemma_row_bound(frame, heights@, y as int, best_area as int);
                    if area > old_area {
                        assert forall|x2: int, y2: int, w2: int, h2: int|
                            #![trigger content_rect(frame, x2, y2, w2, h2)]
                            content_rect(frame, x2, y2, w2, h2) && w2 >= 1 && h2 >= 1 && w2 * h2 == best_area && y2 + h2
                                == best_top + rect_height implies x2 + w2 >= left + rect_width && (x2 + w2 == left + rect_width
                                ==> h2 <= rect_height) by {
                            lemma_row_fit(frame, heights@, y as int, x2, y2, w2, h2);
                        }
                    }
                    if let Some((bl, bw, bh)) = best {
                        assert forall|x2: int, y2: int, w2: int, h2: int|
                            #![trigger content_rect(frame, x2, y2, w2, h2)]
                            content_rect(frame, x2, y2, w2, h2) && y2 + h2 <= y + 1 && w2 * h2 == best_area implies y2 + h2
                                >= best_top + bh by {
                            if y2 + h2 <= y {
                                if area > old_area {
                                    assert(w2 * h2 <= old_area);
                                }
                            }
                        }
                    }
                }
            },
            None => {
                proof {
                    assert forall|l: int, w: int, h: int|
                        #![trigger bars_fit(heights@, l, w, h)]
                        bars_fit(heights@, l, w, h) && h >= 1 && w >= 1 implies w * h <= best_area by {
                        assert(heights@[l] >= h);
                    }
                    lemma_row_bound(frame, heights@, y as int, best_area as int);
                }
            },
        }
        y += 1;
    }
    proof {
        if has_content(frame) {
            let (px, py) = choose|px: int, py: int|
                0 <= px < frame.width && 0 <= py < frame.height && #[trigger] is_content(frame, px, py);
            assert(content_rect(frame, px, py, 1, 1));
        }
    }
    match best {
        Some((left, rect_width, rect_height)) => Some((left as u32, best_top as u32, rect_width as u32, rect_height as u32)),
        None => None,
    }
}

/// A histogram rectangle over the column runs of row `y` is a content
/// rectangle whose bottom row is `y`.
proof fn lemma_row_rect(frame: &ImageFrame, heights: Seq<usize>, y: int, left: int, w: int, h: int)
    requires
        0 <= y < frame.height,
        heights.len() == frame.width,
        forall|k: int| 0 <= k < frame.width ==> heights[k] == column_run(frame, k, y + 1),
        bars_fit(heights, left, w, h),
        h >= 1,
        w >= 1,
    ensures
        h <= y + 1,
        content_rect(frame, left, y + 1 - h, w, h),
{
    assert(heights[left] >= h);
    lemma_column_run(frame, left, y + 1, h);
    assert forall|i: int, j: int| left <= i < left + w && y + 1 - h <= j < y + 1 implies #[trigger] is_content(frame, i, j) by {
        assert(heights[i] >= h);
        lemma_column_run(frame, i, y + 1, h);
    }
}

/// A content rectangle whose bottom row is `y` fits under the column runs
/// of that row.
proof fn lemma_row_fit(frame: &ImageFrame, heights: Seq<usize>, y: int, x2: int, y2: int, w2: int, h2: int)
    requires
        0 <= y < frame.height,
        heights.len() == frame.width,
        forall|k: int| 0 <= k < frame.width ==> heights[k] == column_run(frame, k, y + 1),
        content_rect(frame, x2, y2, w2, h2),
        y2 + h2 == y + 1,
        w2 >= 1,
        h2 >= 1,
    ensures
        bars_fit(heights, x2, w2, h2),
{
    assert forall|k: int| x2 <= k < x2 + w2 implies heights[k] >= h2 by {
        assert forall|j: int| y + 1 - h2 <= j < y + 1 implies #[trigger] is_content(frame, k, j) by {
            assert(is_content(frame, k, j));
        }
        lemma_column_run(frame, k, y + 1, h2);
    }
}

/// Every content rectangle whose bottom row is `y` fits under the column
/// runs of that row, hence under the row's largest histogram rectangle.
proof fn lemma_row_bound(frame: &ImageFrame, heights: Seq<usize>, y: int, bound: int)
    requires
        0 <= y < frame.height,
        heights.len() == frame.width,
        forall|k: int| 0 <= k < frame.width ==> heights[k] == column_run(frame, k, y + 1),
        bound >= 0,
        forall|l: int, w: int, h: int| #![trigger bars_fit(heights, l, w, h)] bars_fit(heights, l, w, h) && h >= 1 && w >= 1 ==> w * h <= bound,
    ensures
        forall|x2: int, y2: int, w2: int, h2: int|
            #![trigger content_rect(frame, x2, y2, w2, h2)]
            content_rect(frame, x2, y2, w2, h2) && y2 + h2 == y + 1 ==> w2 * h2 <= bound,
{
    assert forall|x2: int, y2: int, w2: int, h2: int|
        #![trigger content_rect(frame, x2, y2, w2, h2)]
        content_rect(frame, x2, y2, w2, h2) && y2 + h2 == y + 1 implies w2 * h2 <= bound by {
        if w2 >= 1 && h2 >= 1 {
            assert forall|k: int| x2 <= k < x2 + w2 implies heights[k] >= h2 by {
                assert forall|j: int| y + 1 - h2 <= j < y + 1 implies #[trigger] is_content(frame, k, j) by {
                    assert(is_content(frame, k, j));
                }
                lemma_column_run(frame, k, y + 1, h2);
            }
            assert(bars_fit(heights, x2, w2, h2));
        } else {
            assert(w2 * h2 == 0) by (nonlinear_arith)
                requires
                    w2 == 0 || h2 == 0,
            ;
        }
    }
}

/// Every bar in `[left, left + width)` is at least `height` tall.
pub open spec fn bars_fit(heights: Seq<usize>, left: int, width: int, height: int) -> bool {
    &&& 0 <= left
    &&& 0 <= width
    &&& left + width <= heights.len()
    &&& forall|k: int| left <= k < left + width ==> heights[k] >= height
}

/// The leftmost index of a minimal bar in `[l, r]`.
pub open spec fn leftmost_min(heights: Seq<usize>, l: int, r: int) -> int
    decreases r - l,
{
    if r <= l {
        l
    } else {
        let j = leftmost_min(heights, l, r - 1);
        if heights[r] < heights[j] {
            r
        } else {
            j
        }
    }
}

proof fn lemma_leftmost_min(heights: Seq<usize>, l: int, r: int)
    requires
        0 <= l <= r < heights.len(),
    ensures
        l <= leftmost_min(heights, l, r) <= r,
        forall|x: int| l <= x <= r ==> heights[leftmost_min(heights, l, r)] <= #[trigger] heights[x],
        forall|x: int| l <= x < leftmost_min(heights, l, r) ==> heights[leftmost_min(heights, l, r)] < #[trigger] heights[x],
    decreases r - l,
{
    if r > l {
        lemma_leftmost_min(heights, l, r - 1);
    }
}

/// Bar `i` of the histogram extended by a zero-height sentinel at the end.
pub open spec fn bar(heights: Seq<usize>, i: int) -> int {
    if 0 <= i < heights.len() {
        heights[i] as int
    } else {
        0
    }
}

/// The stack of the scan: strictly increasing indices below `i`, bars
/// non-decreasing along the stack, and every index between a stack entry's
/// predecessor and `i` at least as tall as that entry.
#[verifier::opaque]
spec fn stack_ok(heights: Seq<usize>, stack: Seq<usize>, i: int) -> bool {
    &&& forall|t: int| 0 <= t < stack.len() ==> stack[t] < i
    &&& forall|t: int, u: int| #![trigger stack[t], stack[u]] 0 <= t < u < stack.len() ==> stack[t] < stack[u]
    &&& forall|t: int, u: int|
        #![trigger stack[t], stack[u]]
        0 <= t < u < stack.len() ==> bar(heights, stack[t] as int) <= bar(heights, stack[u] as int)
    &&& forall|t: int, x: int|
        #![trigger stack[t], bar(heights, x)]
        0 <= t < stack.len() && below(stack, t) < x < i ==> bar(heights, x) >= bar(heights, stack[t] as int)
}

/// The stack entry under position `t`, or `-1` at the bottom.
spec fn below(stack: Seq<usize>, t: int) -> int {
    if t == 0 {
        -1
    } else {
        stack[t - 1] as int
    }
}

/// The index on top of the stack, or `-1` when it is empty.
spec fn top_of(stack: Seq<usize>) -> int {
    if stack.len() == 0 {
        -1
    } else {
        stack.last() as int
    }
}

/// Every interval whose leftmost minimum has already left the stack is
/// covered by the best area found so far.
#[verifier::opaque]
spec fn covered(heights: Seq<usize>, stack: Seq<usize>, i: int, best_area: int) -> bool {
    forall|l: int, r: int|
        #![trigger leftmost_min(heights, l, r)]
        0 <= l <= r < heights.len() && leftmost_min(heights, l, r) < i
            && !stack.contains(leftmost_min(heights, l, r) as usize)
            ==> (r - l + 1) * heights[leftmost_min(heights, l, r)] <= best_area
}

/// The scan state after the bars `0..i` have been pushed.
spec fn scan_ok(heights: Seq<usize>, stack: Seq<usize>, i: int, best_area: int) -> bool {
    &&& stack_ok(heights, stack, i)
    &&& covered(heights, stack, i, best_area)
}

/// The best rectangle found so far is a genuine rectangle under the bars.
spec fn best_ok(heights: Seq<usize>, best: Option<(usize, usize, usize)>, best_area: int) -> bool {
    &&& (best is None <==> best_area == 0)
    &&& best matches Some((left, width, height)) ==> {
        &&& width >= 1
        &&& height >= 1
        &&& bars_fit(heights, left as int, width as int, height as int)
        &&& best_area == width * height
    }
    &&& best_area > 0 ==> exists|k: int| 0 <= k < heights.len() && heights[k] > 0
}

/// The right edge of the best rectangle so far (`0` for none).
spec fn best_right(best: Option<(usize, usize, usize)>) -> int {
    match best {
        Some((left, width, _)) => left + width,
        None => 0,
    }
}

/// The height of the best rectangle so far (`0` for none).
spec fn best_height(best: Option<(usize, usize, usize)>) -> int {
    match best {
        Some((_, _, height)) => height as int,
        None => 0,
    }
}

/// Every interval whose leftmost minimum has left the stack and whose
/// rectangle matches the best area ends no earlier than the best
/// rectangle, and is no taller where it ends with it.
#[verifier::opaque]
spec fn ties_ok(heights: Seq<usize>, stack: Seq<usize>, i: int, best_area: int, right: int, tall: int) -> bool {
    forall|l: int, r: int|
        #![trigger leftmost_min(heights, l, r)]
        0 <= l <= r < heights.len() && leftmost_min(heights, l, r) < i
            && !stack.contains(leftmost_min(heights, l, r) as usize) && best_area > 0
            && (r - l + 1) * heights[leftmost_min(heights, l, r)] == best_area
            ==> r + 1 >= right && (r + 1 == right ==> heights[leftmost_min(heights, l, r)] <= tall)
}

/// Largest rectangle in a histogram (stack algorithm). Returns
/// `(left, width, height)` of the first maximal-area rectangle that the
/// scan meets, or `None` for an all-zero histogram: among rectangles of
/// the largest area, the one whose right edge comes first, and of those
/// the tallest.
pub fn largest_histogram_rect(heights: &[usize]) -> (result: Option<(usize, usize, usize)>)
    requires
        heights@.len() < usize::MAX,
        forall|k: int| 0 <= k < heights@.len() ==> heights@.len() * heights@[k] <= usize::MAX,
    ensures
        result is None <==> forall|k: int| 0 <= k < heights@.len() ==> heights@[k] == 0,
        result matches Some((left, width, height)) ==> {
            &&& width >= 1
            &&& height >= 1
            &&& bars_fit(heights@, left as int, width as int, height as int)
            &&& forall|l: int, w: int, h: int|
                #![trigger bars_fit(heights@, l, w, h)]
                bars_fit(heights@, l, w, h) && h >= 0 ==> w * h <= width * height
            &&& forall|l: int, w: int, h: int|
                #![trigger bars_fit(heights@, l, w, h)]
                bars_fit(heights@, l, w, h) && h >= 1 && w >= 1 && w * h == width * height ==> l + w >= left + width
                    && (l + w == left + width ==> h <= height)
        },
{
    let n = heights.len();
    let ghost hs = heights@;
    let mut stack: Vec<usize> = Vec::new();
    let mut best: Option<(usize, usize, usize)> = None;
    let mut best_area: usize = 0;
    let mut i: usize = 0;
    proof {
        lemma_scan_start(hs);
    }
    while i <= n
        invariant
            n == hs.len(),
            n < usize::MAX,
            hs == heights@,
            i <= n + 1,
            forall|k: int| 0 <= k < n ==> n * hs[k] <= usize::MAX,
            scan_ok(hs, stack@, i as int, best_area as int),
            i > 0 ==> stack@.len() > 0 && stack@.last() == i - 1,
            best_ok(hs, best, best_area as int),
            ties_ok(hs, stack@, i as int, best_area as int, best_right(best), best_height(best)),
            best is Some ==> best_right(best) < i,
        decreases n + 1 - i,
    {
        let current = if i < n {
            heights[i]
        } else {
            0
        };
        assert(current == bar(hs, i as int));
        // Pop every entry taller than the current bar.
        loop
            invariant
                n == hs.len(),
                n < usize::MAX,
                hs == heights@,
                i <= n,
                current == bar(hs, i as int),
                forall|k: int| 0 <= k < n ==> n * hs[k] <= usize::MAX,
                scan_ok(hs, stack@, i as int, best_area as int),
                forall|x: int| top_of(stack@) < x < i ==> bar(hs, x) > current,
                best_ok(hs, best, best_area as int),
                ties_ok(hs, stack@, i as int, best_area as int, best_right(best), best_height(best)),
                best is Some ==> best_right(best) <= i,
                best is Some && best_right(best) == i && stack@.len() > 0 ==> best_height(best) >= bar(hs, stack@.last() as int),
            ensures
                scan_ok(hs, stack@, i as int, best_area as int),
                forall|x: int| top_of(stack@) < x < i ==> bar(hs, x) > current,
                stack@.len() > 0 ==> bar(hs, stack@.last() as int) <= current,
                best_ok(hs, best, best_area as int),
                ties_ok(hs, stack@, i as int, best_area as int, best_right(best), best_height(best)),
                best is Some ==> best_right(best) <= i,
            decreases stack@.len(),
        {
            let len = stack.len();
            if len == 0 {
                break;
            }
            let top = stack[len - 1];
            proof {
                lemma_pop_rect(hs, stack@, i as int);
            }
            if heights[top] <= current {
                break;
            }
            let ghost old_stack = stack@;
            let ghost old_best = best_area as int;
            let ghost old_right = best_right(best);
            let ghost old_tall = best_height(best);
            proof {
                lemma_pop_rect(hs, old_stack, i as int);
            }
            stack.pop();
            assert(stack@ == old_stack.subrange(0, len - 1));
            let height = heights[top];
            let left = if stack.len() == 0 {
                0
            } else {
                stack[stack.len() - 1] + 1
            };
            assert(left as int == below(old_stack, len - 1) + 1);
            let rect_width = i - left;
            proof {
                assert(rect_width <= n);
                assert(rect_width * height <= n * hs[top as int]) by (nonlinear_arith)
                    requires
                        rect_width <= n,
                        height == hs[top as int],
                ;
            }
            let area = rect_width * height;
            if area > best_area {
                best_area = area;
                best = Some((left, rect_width, height));
                proof {
                    assert(bars_fit(hs, left as int, rect_width as int, height as int));
                    assert(hs[top as int] > 0);
                }
            }
            proof {
                lemma_pop_covers(hs, old_stack, i as int, current as int, old_best, area as int);
                lemma_pop_ties(hs, old_stack, i as int, current as int, old_best, area as int, old_right, old_tall);
                lemma_stack_shrink(hs, old_stack, i as int);
                assert(top_of(stack@) == below(old_stack, len - 1));
                if stack@.len() > 0 {
                    reveal(stack_ok);
                    assert(old_stack[len - 2] == stack@.last());
                    assert(bar(hs, old_stack[len - 2] as int) <= bar(hs, old_stack[len - 1] as int));
                }
            }
        }
        proof {
            lemma_push_keeps(hs, stack@, i as int, current as int, best_area as int);
            lemma_push_ties(hs, stack@, i as int, best_area as int, best_right(best), best_height(best));
        }
        stack.push(i);
        i += 1;
    }
    assert(i == n + 1);
    proof {
        lemma_scan_end(hs, stack@, best_area as int);
        lemma_scan_end_ties(hs, stack@, best_area as int, best_right(best), best_height(best));
        if let Some((left, width, height)) = best {
            assert forall|l: int, w: int, h: int|
                #![trigger bars_fit(hs, l, w, h)]
                bars_fit(hs, l, w, h) && h >= 1 && w >= 1 && w * h == width * height implies l + w >= left + width
                    && (l + w == left + width ==> h <= height) by {}
        }
    }
    best
}

proof fn lemma_scan_start(heights: Seq<usize>)
    ensures
        scan_ok(heights, Seq::empty(), 0, 0),
        ties_ok(heights, Seq::empty(), 0, 0, 0, 0),
{
    reveal(stack_ok);
    reveal(covered);
    reveal(ties_ok);
    assert forall|l: int, r: int|
        #![trigger leftmost_min(heights, l, r)]
        0 <= l <= r < heights.len() implies leftmost_min(heights, l, r) >= 0 by {
        lemma_leftmost_min(heights, l, r);
    }
}

/// The popped top spans everything between its predecessor and `i`.
proof fn lemma_pop_rect(heights: Seq<usize>, stack: Seq<usize>, i: int)
    requires
        stack.len() > 0,
        stack_ok(heights, stack, i),
        i <= heights.len(),
    ensures
        0 <= stack.last() < i,
        below(stack, stack.len() - 1) < stack.last() < i,
        forall|x: int| below(stack, stack.len() - 1) < x < i ==> #[trigger] bar(heights, x) >= bar(heights, stack.last() as int),
        forall|k: int|
            below(stack, stack.len() - 1) < k < i ==> #[trigger] heights[k] >= heights[stack.last() as int],
{
    reveal(stack_ok);
    let last = stack.len() - 1;
    if last > 0 {
        assert(stack[last - 1] < stack[last]);
    }
    assert forall|x: int| below(stack, last) < x < i implies #[trigger] bar(heights, x) >= bar(heights, stack.last() as int) by {
        assert(stack[last] == stack.last());
    }
    assert forall|k: int| below(stack, last) < k < i implies #[trigger] heights[k] >= heights[stack.last() as int] by {
        assert(bar(heights, k) >= bar(heights, stack.last() as int));
    }
}

proof fn lemma_stack_shrink(heights: Seq<usize>, stack: Seq<usize>, i: int)
    requires
        stack.len() > 0,
        stack_ok(heights, stack, i),
    ensures
        stack_ok(heights, stack.subrange(0, stack.len() - 1), i),
{
    reveal(stack_ok);
    let s = stack.subrange(0, stack.len() - 1);
    assert forall|t: int, x: int|
        #![trigger s[t], bar(heights, x)]
        0 <= t < s.len() && below(s, t) < x < i implies bar(heights, x) >= bar(heights, s[t] as int) by {
        assert(below(s, t) == below(stack, t));
        assert(s[t] == stack[t]);
    }
    assert forall|t: int, u: int| #![trigger s[t], s[u]] 0 <= t < u < s.len() implies s[t] < s[u] && bar(
        heights,
        s[t] as int,
    ) <= bar(heights, s[u] as int) by {
        assert(s[t] == stack[t] && s[u] == stack[u]);
    }
}

/// Popping the top entry covers every interval whose leftmost minimum it is.
#[verifier::rlimit(40)]
proof fn lemma_pop_covers(
    heights: Seq<usize>,
    stack: Seq<usize>,
    i: int,
    current: int,
    best: int,
    area: int,
)
    requires
        stack.len() > 0,
        stack_ok(heights, stack, i),
        0 <= i <= heights.len(),
        heights.len() < usize::MAX,
        current == bar(heights, i),
        bar(heights, stack.last() as int) > current,
        covered(heights, stack, i, best),
        area == (i - below(stack, stack.len() - 1) - 1) * heights[stack.last() as int],
    ensures
        covered(heights, stack.subrange(0, stack.len() - 1), i, if area > best { area } else { best }),
{
    reveal(stack_ok);
    reveal(covered);
    let s = stack.subrange(0, stack.len() - 1);
    let last = stack.len() - 1;
    let j = stack[last] as int;
    let k = below(stack, last);
    let nb = if area > best {
        area
    } else {
        best
    };
    assert forall|l: int, r: int|
        #![trigger leftmost_min(heights, l, r)]
        0 <= l <= r < heights.len() && leftmost_min(heights, l, r) < i && !s.contains(
            leftmost_min(heights, l, r) as usize,
        ) implies (r - l + 1) * heights[leftmost_min(heights, l, r)] <= nb by {
        lemma_leftmost_min(heights, l, r);
        let m = leftmost_min(heights, l, r);
        if stack.contains(m as usize) {
            let t = choose|t: int| 0 <= t < stack.len() && stack[t] == m as usize;
            if t < last {
                assert(s[t] == stack[t]);
                assert(s.contains(m as usize));
            }
            assert(t == last);
            assert(m == j);
            // Everything in [l, r] is at least as tall as bar j, the current
            // bar is shorter, so r < i.
            assert(r < i) by {
                if r >= i {
                    assert(heights[i] >= heights[m]);
                }
            }
            // The entry below j is no taller than j, so it lies left of l.
            assert(k < l) by {
                if k >= l {
                    assert(last > 0);
                    assert(bar(heights, stack[last - 1] as int) <= bar(heights, stack[last] as int));
                    assert(stack[last - 1] < stack[last]);
                    assert(heights[k] <= heights[m]);
                }
            }
            assert((r - l + 1) * heights[m] <= (i - k - 1) * heights[m]) by (nonlinear_arith)
                requires
                    r - l + 1 <= i - k - 1,
                    heights[m] >= 0,
            ;
        }
    }
}

/// Pushing `i` after the pops keeps the stack shape and the coverage.
proof fn lemma_push_keeps(heights: Seq<usize>, stack: Seq<usize>, i: int, current: int, best: int)
    requires
        scan_ok(heights, stack, i, best),
        current == bar(heights, i),
        forall|x: int| top_of(stack) < x < i ==> bar(heights, x) > current,
        stack.len() > 0 ==> bar(heights, stack.last() as int) <= current,
        0 <= i,
        i < usize::MAX,
    ensures
        scan_ok(heights, stack.push(i as usize), i + 1, best),
{
    lemma_push_stack(heights, stack, i, current);
    lemma_push_covered(heights, stack, i, best);
}

#[verifier::rlimit(40)]
#[verifier::spinoff_prover]
proof fn lemma_push_stack(heights: Seq<usize>, stack: Seq<usize>, i: int, current: int)
    requires
        stack_ok(heights, stack, i),
        current == bar(heights, i),
        forall|x: int| top_of(stack) < x < i ==> bar(heights, x) > current,
        stack.len() > 0 ==> bar(heights, stack.last() as int) <= current,
        0 <= i,
        i < usize::MAX,
    ensures
        stack_ok(heights, stack.push(i as usize), i + 1),
{
    reveal(stack_ok);
    let s = stack.push(i as usize);
    let last = s.len() - 1;
    assert forall|t: int, u: int| #![trigger s[t], s[u]] 0 <= t < u < s.len() implies s[t] < s[u] && bar(
        heights,
        s[t] as int,
    ) <= bar(heights, s[u] as int) by {
        if u == last {
            if stack.len() > 0 && t < stack.len() - 1 {
                assert(bar(heights, stack[t] as int) <= bar(heights, stack[stack.len() - 1] as int));
            }
        } else {
            assert(s[t] == stack[t] && s[u] == stack[u]);
        }
    }
    assert forall|t: int, x: int|
        #![trigger s[t], bar(heights, x)]
        0 <= t < s.len() && below(s, t) < x < i + 1 implies bar(heights, x) >= bar(heights, s[t] as int) by {
        if t < stack.len() {
            assert(s[t] == stack[t]);
            assert(below(s, t) == below(stack, t));
            if x == i {
                if t < stack.len() - 1 {
                    assert(bar(heights, stack[t] as int) <= bar(heights, stack[stack.len() - 1] as int));
                }
            } else {
                assert(bar(heights, x) >= bar(heights, stack[t] as int));
            }
        } else {
            assert(below(s, t) == top_of(stack));
        }
    }
}

proof fn lemma_push_covered(heights: Seq<usize>, stack: Seq<usize>, i: int, best: int)
    requires
        covered(heights, stack, i, best),
        0 <= i < usize::MAX,
    ensures
        covered(heights, stack.push(i as usize), i + 1, best),
{
    reveal(covered);
    let s = stack.push(i as usize);
    assert forall|l: int, r: int|
        #![trigger leftmost_min(heights, l, r)]
        0 <= l <= r < heights.len() && leftmost_min(heights, l, r) < i + 1 && !s.contains(
            leftmost_min(heights, l, r) as usize,
        ) implies (r - l + 1) * heights[leftmost_min(heights, l, r)] <= best by {
        let m = leftmost_min(heights, l, r);
        assert(s[s.len() - 1] == i as usize);
        assert(m != i);
        assert(!stack.contains(m as usize)) by {
            if stack.contains(m as usize) {
                let t = choose|t: int| 0 <= t < stack.len() && stack[t] == m as usize;
                assert(s[t] == m as usize);
            }
        }
    }
}

/// After the zero sentinel only zero bars remain on the stack, so every
/// rectangle under the bars is covered by the best area.
proof fn lemma_scan_end(heights: Seq<usize>, stack: Seq<usize>, best_area: int)
    requires
        scan_ok(heights, stack, heights.len() + 1 as int, best_area),
        stack.len() > 0 && stack.last() == heights.len(),
        heights.len() < usize::MAX,
        best_area >= 0,
    ensures
        forall|l: int, w: int, h: int|
            #![trigger bars_fit(heights, l, w, h)]
            bars_fit(heights, l, w, h) && h >= 0 ==> w * h <= best_area,
        (forall|k: int| 0 <= k < heights.len() ==> heights[k] == 0) || best_area > 0,
{
    reveal(stack_ok);
    reveal(covered);
    let n = heights.len() as int;
    let last = stack.len() - 1;
    assert forall|j: int| 0 <= j < n && heights[j] > 0 implies !stack.contains(j as usize) by {
        if stack.contains(j as usize) {
            let t = choose|t: int| 0 <= t < stack.len() && stack[t] == j as usize;
            assert(t != last);
            assert(bar(heights, stack[t] as int) <= bar(heights, stack[last] as int));
        }
    }
    assert forall|l: int, w: int, h: int|
        #![trigger bars_fit(heights, l, w, h)]
        bars_fit(heights, l, w, h) && h >= 0 implies w * h <= best_area by {
        if w > 0 {
            let r = l + w - 1;
            lemma_leftmost_min(heights, l, r);
            let j = leftmost_min(heights, l, r);
            assert(heights[j] >= h);
            if heights[j] > 0 {
                assert((r - l + 1) * heights[j] <= best_area);
            }
            assert(w * h <= w * heights[j]) by (nonlinear_arith)
                requires
                    w > 0,
                    h <= heights[j],
            ;
        }
    }
    if exists|k: int| 0 <= k < n && heights[k] > 0 {
        let k = choose|k: int| 0 <= k < n && heights[k] > 0;
        assert(bars_fit(heights, k, 1, heights[k] as int));
    }
}

/// Popping the top entry keeps the ties: an interval it covers matches the
/// best area only as the popped rectangle itself, which ends at `i`.
#[verifier::rlimit(40)]
proof fn lemma_pop_ties(
    heights: Seq<usize>,
    stack: Seq<usize>,
    i: int,
    current: int,
    best: int,
    area: int,
    right: int,
    tall: int,
)
    requires
        stack.len() > 0,
        stack_ok(heights, stack, i),
        0 <= i <= heights.len(),
        heights.len() < usize::MAX,
        current == bar(heights, i),
        current >= 0,
        bar(heights, stack.last() as int) > current,
        covered(heights, stack, i, best),
        ties_ok(heights, stack, i, best, right, tall),
        right <= i,
        right == i ==> tall >= bar(heights, stack.last() as int),
        area == (i - below(stack, stack.len() - 1) - 1) * heights[stack.last() as int],
    ensures
        ties_ok(
            heights,
            stack.subrange(0, stack.len() - 1),
            i,
            if area > best { area } else { best },
            if area > best { i } else { right },
            if area > best { heights[stack.last() as int] as int } else { tall },
        ),
{
    reveal(stack_ok);
    reveal(covered);
    reveal(ties_ok);
    let s = stack.subrange(0, stack.len() - 1);
    let last = stack.len() - 1;
    let j = stack[last] as int;
    let k = below(stack, last);
    let nb = if area > best { area } else { best };
    let nr = if area > best { i } else { right };
    let nt = if area > best { heights[j] as int } else { tall };
    assert forall|l: int, r: int|
        #![trigger leftmost_min(heights, l, r)]
        0 <= l <= r < heights.len() && leftmost_min(heights, l, r) < i && !s.contains(leftmost_min(heights, l, r) as usize)
            && nb > 0 && (r - l + 1) * heights[leftmost_min(heights, l, r)] == nb implies r + 1 >= nr && (r + 1 == nr
            ==> heights[leftmost_min(heights, l, r)] <= nt) by {
        lemma_leftmost_min(heights, l, r);
        let m = leftmost_min(heights, l, r);
        if stack.contains(m as usize) {
            let t = choose|t: int| 0 <= t < stack.len() && stack[t] == m as usize;
            if t < last {
                assert(s[t] == stack[t]);
                assert(s.contains(m as usize));
            }
            assert(t == last);
            assert(m == j);
            assert(r < i) by {
                if r >= i {
                    assert(heights[i] >= heights[m]);
                }
            }
            assert(k < l) by {
                if k >= l {
                    assert(last > 0);
                    assert(bar(heights, stack[last - 1] as int) <= bar(heights, stack[last] as int));
                    assert(stack[last - 1] < stack[last]);
                    assert(heights[k] <= heights[m]);
                }
            }
            assert(heights[m] > 0);
            assert((r - l + 1) * heights[m] <= (i - k - 1) * heights[m]) by (nonlinear_arith)
                requires
                    r - l + 1 <= i - k - 1,
                    heights[m] >= 0,
            ;
            assert((r - l + 1) * heights[m] == (i - k - 1) * heights[m]);
            assert(r - l + 1 == i - k - 1) by (nonlinear_arith)
                requires
                    (r - l + 1) * heights[m] == (i - k - 1) * heights[m],
                    heights[m] > 0,
            ;
            assert(r + 1 == i);
        } else {
            assert((r - l + 1) * heights[m] <= best);
        }
    }
}

/// Pushing `i` keeps the ties.
proof fn lemma_push_ties(heights: Seq<usize>, stack: Seq<usize>, i: int, best: int, right: int, tall: int)
    requires
        ties_ok(heights, stack, i, best, right, tall),
        0 <= i < usize::MAX,
    ensures
        ties_ok(heights, stack.push(i as usize), i + 1, best, right, tall),
{
    reveal(ties_ok);
    let s = stack.push(i as usize);
    assert forall|l: int, r: int|
        #![trigger leftmost_min(heights, l, r)]
        0 <= l <= r < heights.len() && leftmost_min(heights, l, r) < i + 1 && !s.contains(leftmost_min(heights, l, r) as usize)
            && best > 0 && (r - l + 1) * heights[leftmost_min(heights, l, r)] == best implies r + 1 >= right && (r + 1
            == right ==> heights[leftmost_min(heights, l, r)] <= tall) by {
        let m = leftmost_min(heights, l, r);
        assert(s[s.len() - 1] == i as usize);
        assert(m != i);
        assert(!stack.contains(m as usize)) by {
            if stack.contains(m as usize) {
                let t = choose|t: int| 0 <= t < stack.len() && stack[t] == m as usize;
                assert(s[t] == m as usize);
            }
        }
    }
}

/// After the zero sentinel, every rectangle of the best area ends no
/// earlier than the best rectangle, and is no taller where it ends with it.
proof fn lemma_scan_end_ties(heights: Seq<usize>, stack: Seq<usize>, best_area: int, right: int, tall: int)
    requires
        scan_ok(heights, stack, heights.len() + 1 as int, best_area),
        ties_ok(heights, stack, heights.len() + 1 as int, best_area, right, tall),
        stack.len() > 0 && stack.last() == heights.len(),
        heights.len() < usize::MAX,
        best_area >= 0,
    ensures
        forall|l: int, w: int, h: int|
            #![trigger bars_fit(heights, l, w, h)]
            bars_fit(heights, l, w, h) && h >= 1 && w >= 1 && w * h == best_area ==> l + w >= right && (l + w == right
                ==> h <= tall),
{
    reveal(stack_ok);
    reveal(covered);
    reveal(ties_ok);
    let n = heights.len() as int;
    let last = stack.len() - 1;
    assert forall|l: int, w: int, h: int|
        #![trigger bars_fit(heights, l, w, h)]
        bars_fit(heights, l, w, h) && h >= 1 && w >= 1 && w * h == best_area implies l + w >= right && (l + w == right
            ==> h <= tall) by {
        let r = l + w - 1;
        lemma_leftmost_min(heights, l, r);
        let j = leftmost_min(heights, l, r);
        assert(heights[j] >= h);
        assert(!stack.contains(j as usize)) by {
            if stack.contains(j as usize) {
                let t = choose|t: int| 0 <= t < stack.len() && stack[t] == j as usize;
                assert(t != last);
                assert(bar(heights, stack[t] as int) <= bar(heights, stack[last] as int));
            }
        }
        assert((r - l + 1) * heights[j] <= best_area);
        assert(w * h <= w * heights[j]) by (nonlinear_arith)
            requires
                w > 0,
                h <= heights[j],
        ;
        assert(w * h >= 1) by (nonlinear_arith)
            requires
                w >= 1,
                h >= 1,
        ;
        assert(r - l + 1 == w);
        assert(heights[j] == h) by (nonlinear_arith)
            requires
                w * h <= w * heights[j],
                w * heights[j] <= w * h,
                w > 0,
        ;
        assert((r - l + 1) * heights[j] == best_area);
        assert(r + 1 >= right && (r + 1 == right ==> heights[j] <= tall));
    }
}

} // verus!
