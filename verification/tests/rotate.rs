use lumina_core::frame::{rotate_quarter_turns, ImageFrame};

/// A 3x2 frame whose pixel (x, y) has red = 10 * y + x.
fn sample() -> ImageFrame {
    let mut pixels = Vec::new();
    for y in 0..2u8 {
        for x in 0..3u8 {
            pixels.extend_from_slice(&[10 * y + x, 0, 0, 255]);
        }
    }
    ImageFrame::new(3, 2, pixels).unwrap()
}

fn reds(frame: &ImageFrame) -> Vec<u8> {
    frame.pixels.chunks(4).map(|p| p[0]).collect()
}

#[test]
fn quarter_turn_clockwise_moves_left_column_to_top_row() {
    let turned = rotate_quarter_turns(&sample(), 1);
    assert_eq!((turned.width, turned.height), (2, 3));
    // Row 0 of the result is the source's left column read bottom-up.
    assert_eq!(reds(&turned), vec![10, 0, 11, 1, 12, 2]);
}

#[test]
fn half_turn_reverses_pixel_order() {
    let turned = rotate_quarter_turns(&sample(), 2);
    assert_eq!((turned.width, turned.height), (3, 2));
    assert_eq!(reds(&turned), vec![12, 11, 10, 2, 1, 0]);
}

#[test]
fn three_quarter_turns_undo_one() {
    let once = rotate_quarter_turns(&sample(), 1);
    let back = rotate_quarter_turns(&once, 3);
    assert_eq!(back, sample());
    assert_eq!(rotate_quarter_turns(&sample(), 0), sample());
}

#[test]
fn four_quarter_turns_are_identity() {
    let mut frame = sample();
    for _ in 0..4 {
        frame = rotate_quarter_turns(&frame, 1);
    }
    assert_eq!(frame, sample());
}
