use lumina_core::crop_max_rect::{largest_histogram_rect, maximum_content_rect};
use lumina_core::frame::ImageFrame;

fn frame_with<F: Fn(u32, u32) -> bool>(width: u32, height: u32, content: F) -> ImageFrame {
    let mut pixels = Vec::with_capacity((width * height * 4) as usize);
    for y in 0..height {
        for x in 0..width {
            if content(x, y) {
                pixels.extend_from_slice(&[120, 130, 140, 255]);
            } else {
                pixels.extend_from_slice(&[0, 0, 0, 0]);
            }
        }
    }
    ImageFrame::new(width, height, pixels).unwrap()
}

fn fully_opaque(width: u32, height: u32) -> ImageFrame {
    frame_with(width, height, |_, _| true)
}

#[test]
fn opaque_frame_is_identity_full_frame() {
    let frame = fully_opaque(7, 4);
    assert_eq!(maximum_content_rect(&frame), Some((0, 0, 7, 4)));
}

#[test]
fn transparent_border_is_excluded() {
    let frame = frame_with(5, 5, |x, y| x > 0 && y > 0 && y < 4);
    assert_eq!(maximum_content_rect(&frame), Some((1, 1, 4, 3)));
}

#[test]
fn picks_the_largest_all_content_rectangle_of_a_wedge() {
    let frame = frame_with(4, 4, |x, y| x <= y);
    assert_eq!(maximum_content_rect(&frame), Some((0, 1, 2, 3)));
}

#[test]
fn largest_histogram_rect_is_deterministic_and_correct() {
    assert_eq!(largest_histogram_rect(&[0, 0, 0]), None);
    assert_eq!(largest_histogram_rect(&[4, 3, 2, 1]), Some((0, 2, 3)));
    assert_eq!(largest_histogram_rect(&[1, 1, 1, 1]), Some((0, 4, 1)));
    assert_eq!(largest_histogram_rect(&[1, 5, 1]), Some((1, 1, 5)));
}

#[test]
fn fully_transparent_frame_has_no_content_rect() {
    let frame = frame_with(3, 3, |_, _| false);
    assert_eq!(maximum_content_rect(&frame), None);
}

#[test]
fn content_rect_contains_no_transparent_pixel() {
    let frame = frame_with(6, 4, |x, y| !(x == 0 && y == 0));
    let (x, y, w, h) = maximum_content_rect(&frame).unwrap();
    assert_eq!((x, y, w, h), (1, 0, 5, 4));
}

#[test]
fn empty_histogram_has_no_rectangle() {
    assert_eq!(largest_histogram_rect(&[]), None);
}

#[test]
fn single_content_pixel_is_its_own_rectangle() {
    let frame = frame_with(3, 2, |x, y| x == 2 && y == 1);
    assert_eq!(maximum_content_rect(&frame), Some((2, 1, 1, 1)));
}

#[test]
fn histogram_ties_go_to_the_earliest_right_edge_then_the_tallest() {
    // Area 4 twice: ending at 2 and ending at 4; the earlier end wins.
    assert_eq!(largest_histogram_rect(&[2, 2, 0, 4, 1]), Some((0, 2, 2)));
    // Area 4 twice with the same right edge: the taller one wins.
    assert_eq!(largest_histogram_rect(&[2, 4, 0]), Some((1, 1, 4)));
}
