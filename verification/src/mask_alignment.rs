//! Exact geometry of mask planes: crops, quarter turns and mirrors that a
//! local adjustment applies to a source-oriented matte so that it lines up
//! with the output frame.
use crate::masks::MaskPlane;
use crate::raster::{
    is_hflip, is_turned, is_vflip, lemma_cell_bounds, mirror_horizontal, mirror_vertical, rotate_cells,
    turned_extent,
};
use vstd::prelude::*;

verus! {

/// The sample of `plane` at `(x, y)`.
pub open spec fn sample(plane: MaskPlane, x: int, y: int) -> u16 {
    plane.values@[y * plane.width + x]
}

/// Copies the `width × height` rectangle at `(x, y)` out of `plane`; an
/// empty rectangle is refused.
pub fn crop_plane(plane: &MaskPlane, x: u32, y: u32, width: u32, height: u32) -> (result: Result<MaskPlane, String>)
    requires
        plane.wf(),
        x + width <= plane.width,
        y + height <= plane.height,
    ensures
        (width == 0 || height == 0) <==> result is Err,
        result matches Err(text) ==> text@ == "mask crop produced a zero dimension"@,
        result matches Ok(out) ==> {
            &&& out.width == width
            &&& out.height == height
            &&& out.wf()
            &&& forall|i: int, j: int|
                0 <= i < width && 0 <= j < height ==> #[trigger] sample(out, i, j) == sample(*plane, x + i, y + j)
        },
{
    if width == 0 || height == 0 {
        return Err(String::from_str("mask crop produced a zero dimension"));
    }
    let ghost pw = plane.width as int;
    let ghost ph = plane.height as int;
    let total = plane.values.len();
    let mut values: Vec<u16> = Vec::new();
    let mut row: u32 = 0;
    while row < height
        invariant
            plane.wf(),
            pw == plane.width,
            ph == plane.height,
            total == pw * ph,
            x + width <= pw,
            y + height <= ph,
            row <= height,
            values@.len() == row * width,
            forall|i: int, j: int|
                0 <= i < width && 0 <= j < row ==> #[trigger] values@[j * width + i] == sample(*plane, x + i, y + j),
        decreases height - row,
    {
        let ghost before = values@;
        let mut col: u32 = 0;
        while col < width
            invariant
                plane.wf(),
                pw == plane.width,
                ph == plane.height,
                total == pw * ph,
                x + width <= pw,
                y + height <= ph,
                row < height,
                col <= width,
                values@.len() == row * width + col,
                values@.subrange(0, row * width) == before,
                forall|i: int| 0 <= i < col ==> #[trigger] values@[row * width + i] == sample(*plane, x + i, y + row),
            decreases width - col,
        {
            proof {
                lemma_cell_bounds(pw, ph, 1, (x + col) as int, (y + row) as int, 0);
            }
            let index = (y + row) as usize * plane.width as usize + (x + col) as usize;
            values.push(plane.values[index]);
            proof {
                assert(values@.subrange(0, row * width) =~= before);
            }
            col += 1;
        }
        proof {
            assert forall|i: int, j: int| 0 <= i < width && 0 <= j < row + 1 implies #[trigger] values@[j * width + i] == sample(
                *plane,
                x + i,
                y + j,
            ) by {
                if j < row {
                    assert(0 <= j * width + i < row * width) by (nonlinear_arith)
                        requires
                            0 <= i < width,
                            0 <= j < row,
                    ;
                    assert(values@[j * width + i] == values@.subrange(0, row * width)[j * width + i]);
                } else {
                    assert(j * width + i == row * width + i);
                }
            }
            assert(values@.len() == (row + 1) * width) by (nonlinear_arith)
                requires
                    values@.len() == row * width + width,
            ;
        }
        row += 1;
    }
    let out = MaskPlane { width, height, values };
    proof {
        assert(out.values@.len() == width * height) by (nonlinear_arith)
            requires
                out.values@.len() == row * width,
                row == height,
        ;
    }
    Ok(out)
}

/// Turns the plane clockwise by `turn` quarter turns.
pub fn rotate_quarter_turn(plane: &MaskPlane, turn: u32) -> (out: MaskPlane)
    requires
        plane.wf(),
        turn < 4,
    ensures
        out.wf(),
        (out.width as int, out.height as int) == turned_extent(turn as int, plane.width as int, plane.height as int),
        is_turned(plane.values@, out.values@, plane.width as int, plane.height as int, 1, turn as int),
{
    let (width, height) = if turn % 2 == 1 { (plane.height, plane.width) } else { (plane.width, plane.height) };
    proof {
        assert(plane.values@.len() == plane.width * plane.height * 1);
    }
    let values = rotate_cells(&plane.values, plane.width as usize, plane.height as usize, 1, turn);
    MaskPlane { width, height, values }
}

/// Mirrors the plane left-right in place.
pub fn flip_horizontal(plane: &mut MaskPlane)
    requires
        old(plane).wf(),
    ensures
        final(plane).width == old(plane).width,
        final(plane).height == old(plane).height,
        is_hflip(old(plane).values@, final(plane).values@, old(plane).width as int, old(plane).height as int, 1),
{
    let width = plane.width as usize;
    let height = plane.height as usize;
    mirror_horizontal(&mut plane.values, width, height, 1);
}

/// Mirrors the plane top-bottom in place.
pub fn flip_vertical(plane: &mut MaskPlane)
    requires
        old(plane).wf(),
    ensures
        final(plane).width == old(plane).width,
        final(plane).height == old(plane).height,
        is_vflip(old(plane).values@, final(plane).values@, old(plane).width as int, old(plane).height as int, 1),
{
    let width = plane.width as usize;
    let height = plane.height as usize;
    mirror_vertical(&mut plane.values, width, height, 1);
}

} // verus!
