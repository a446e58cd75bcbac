use lumina_core::mask_alignment::{crop_plane, flip_horizontal, flip_vertical, rotate_quarter_turn};
use lumina_core::masks::MaskPlane;

/// A 3x2 plane whose sample (x, y) is 10 * y + x.
fn sample() -> MaskPlane {
    MaskPlane::new(3, 2, vec![0, 1, 2, 10, 11, 12]).unwrap()
}

#[test]
fn crop_copies_the_rectangle() {
    let cropped = crop_plane(&sample(), 1, 0, 2, 2).unwrap();
    assert_eq!((cropped.width, cropped.height), (2, 2));
    assert_eq!(cropped.values, vec![1, 2, 11, 12]);
}

#[test]
fn empty_crop_is_refused() {
    assert_eq!(crop_plane(&sample(), 0, 0, 0, 2), Err("mask crop produced a zero dimension".to_string()));
    assert_eq!(crop_plane(&sample(), 0, 0, 3, 0), Err("mask crop produced a zero dimension".to_string()));
}

#[test]
fn plane_quarter_turns() {
    let once = rotate_quarter_turn(&sample(), 1);
    assert_eq!((once.width, once.height), (2, 3));
    assert_eq!(once.values, vec![10, 0, 11, 1, 12, 2]);
    let half = rotate_quarter_turn(&sample(), 2);
    assert_eq!(half.values, vec![12, 11, 10, 2, 1, 0]);
    let three = rotate_quarter_turn(&sample(), 3);
    assert_eq!((three.width, three.height), (2, 3));
    assert_eq!(three.values, vec![2, 12, 1, 11, 0, 10]);
    assert_eq!(rotate_quarter_turn(&sample(), 0), sample());
}

#[test]
fn plane_mirrors() {
    let mut plane = sample();
    flip_horizontal(&mut plane);
    assert_eq!(plane.values, vec![2, 1, 0, 12, 11, 10]);
    let mut plane = sample();
    flip_vertical(&mut plane);
    assert_eq!(plane.values, vec![10, 11, 12, 0, 1, 2]);
}
