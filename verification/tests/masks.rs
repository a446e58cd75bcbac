use lumina_core::mask_tiles::{tiles_across, MaskTileGrid, TileCoord};
use lumina_core::masks::{box_blur, box_blur_passes, MaskPlane};

fn rect_plane(width: u32, height: u32, seed: u64) -> MaskPlane {
    let mut state = seed | 1;
    let mut values = Vec::with_capacity((width * height) as usize);
    for _ in 0..width * height {
        state ^= state << 13;
        state ^= state >> 7;
        state ^= state << 17;
        values.push((state % (u16::MAX as u64 + 1)) as u16);
    }
    MaskPlane::new(width, height, values).unwrap()
}

fn reference_box_blur_previous_implementation(plane: &MaskPlane, radius: u32) -> MaskPlane {
    let radius = radius as usize;
    let (w, h) = (plane.width as usize, plane.height as usize);
    let mut scratch = vec![0u64; w * h];
    for y in 0..h {
        for x in 0..w {
            let start = x.saturating_sub(radius);
            let end = (x + radius).min(w - 1);
            let mut sum = 0u64;
            let mut count = 0u64;
            for k in start..=end {
                sum += plane.values[y * w + k] as u64;
                count += 1;
            }
            scratch[y * w + x] = sum / count;
        }
    }
    let mut values = plane.values.clone();
    for y in 0..h {
        for x in 0..w {
            let start = y.saturating_sub(radius);
            let end = (y + radius).min(h - 1);
            let mut sum = 0u64;
            let mut count = 0u64;
            for k in start..=end {
                sum += scratch[k * w + x];
                count += 1;
            }
            values[y * w + x] = (sum / count) as u16;
        }
    }
    MaskPlane::new(plane.width, plane.height, values).unwrap()
}

fn blurred(mut plane: MaskPlane, radius: u32, passes: usize) -> MaskPlane {
    box_blur_passes(&mut plane, radius, passes);
    plane
}

fn rect_plane_filled(width: u32, height: u32, value: u16) -> MaskPlane {
    MaskPlane::new(width, height, vec![value; (width * height) as usize]).unwrap()
}

#[test]
fn box_blur_is_byte_identical_to_previous_implementation() {
    const SHAPES: [(u32, u32); 8] = [(1, 1), (1, 7), (7, 1), (2, 13), (13, 2), (5, 5), (16, 9), (9, 16)];
    for (w, h) in SHAPES {
        for seed in [1u64, 0xDEAD_BEEF, 0x5EED_5EED] {
            let plane = rect_plane(w, h, seed);
            let long = w.max(h);
            for &radius in &[0u32, 1, 2, long / 2, long - 1, long, long * 2] {
                for &passes in &[1usize, 3] {
                    let mut expected = plane.clone();
                    for _ in 0..passes {
                        expected = reference_box_blur_previous_implementation(&expected, radius);
                    }
                    assert_eq!(
                        blurred(plane.clone(), radius, passes),
                        expected,
                        "byte-identity failed at {w}x{h} radius={radius} passes={passes}"
                    );
                }
            }
        }
    }
}

#[test]
fn box_blur_radius_above_dimension_preserves_uniform_planes() {
    let plane = rect_plane_filled(6, 4, 42_000);
    let blurred = blurred(plane.clone(), 9, 3);
    assert_eq!(blurred.values, plane.values);
}

#[test]
fn box_blur_spreads_energy_from_a_single_peak_two_dimensional() {
    let mut plane = rect_plane_filled(3, 3, 0);
    plane.values[4] = 9_000;
    let blurred = blurred(plane, 1, 1);
    assert_eq!(
        blurred.values,
        vec![2_250, 1_500, 2_250, 1_500, 1_000, 1_500, 2_250, 1_500, 2_250]
    );
}

#[test]
fn box_blur_radius_zero_is_identity() {
    let plane = rect_plane(5, 3, 7);
    let mut copy = plane.clone();
    box_blur(&mut copy, 0);
    assert_eq!(copy, plane);
}

#[test]
fn tiles_across_covers_edges() {
    assert_eq!(tiles_across(1), 1);
    assert_eq!(tiles_across(512), 1);
    assert_eq!(tiles_across(513), 2);
    assert_eq!(tiles_across(1024), 2);
}

#[test]
fn tile_bounds_clamp_to_plane() {
    let grid = MaskTileGrid::new(600, 300);
    assert_eq!((grid.tiles_x(), grid.tiles_y()), (2, 1));
    let (x, y, w, h) = TileCoord { tx: 1, ty: 0 }.bounds(600, 300);
    assert_eq!((x, y, w, h), (512, 0, 88, 300));
}

#[test]
fn mark_all_and_out_of_plane_regions() {
    let mut grid = MaskTileGrid::new(600, 300);
    grid.mark_all();
    assert_eq!(grid.dirty_count(), 2);
    grid.take_dirty();
    grid.mark_region_px(-10_000, -10_000, 5_000, 5_000);
    assert_eq!(grid.dirty_count(), 0);
    grid.mark_region_px(-100, -100, 700, 700);
    assert_eq!(grid.dirty_count(), 2);
}

#[test]
fn take_dirty_drains_in_row_major_order() {
    let mut grid = MaskTileGrid::new(1024, 1024);
    grid.mark_region_px(600, 600, 10, 10);
    grid.mark_region_px(10, 10, 10, 10);
    grid.mark_region_px(600, 10, 10, 10);
    assert!(grid.is_dirty(TileCoord { tx: 1, ty: 1 }));
    let drained = grid.take_dirty();
    assert_eq!(
        drained,
        vec![TileCoord { tx: 0, ty: 0 }, TileCoord { tx: 1, ty: 0 }, TileCoord { tx: 1, ty: 1 }]
    );
    assert_eq!(grid.dirty_count(), 0);
    assert_eq!(grid.take_dirty(), Vec::new());
}

#[test]
fn take_dirty_puts_a_whole_row_before_the_next() {
    let mut grid = MaskTileGrid::new(1024, 1024);
    grid.mark_region_px(600, 0, 1, 1);
    grid.mark_region_px(0, 600, 1, 1);
    assert_eq!(grid.take_dirty(), vec![TileCoord { tx: 1, ty: 0 }, TileCoord { tx: 0, ty: 1 }]);
    assert_eq!(grid.dirty_count(), 0);
    assert_eq!(grid.take_dirty(), Vec::new());
}

#[test]
fn a_region_reaching_far_past_the_plane_dirties_every_tile_it_meets() {
    let mut grid = MaskTileGrid::new(1024, 1);
    grid.mark_region_px(0, 0, 4_294_967_297, 1);
    assert!(grid.is_dirty(TileCoord { tx: 0, ty: 0 }));
    assert!(grid.is_dirty(TileCoord { tx: 1, ty: 0 }));
    assert_eq!(grid.dirty_count(), 2);
}
