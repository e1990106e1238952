use plot_digitizer::axis::analyze_mask_for_axes;
use plot_digitizer::color::is_bg_color;
use plot_digitizer::pixels::{foreground_grid, foreground_pixels};

const W: u32 = 60;
const H: u32 = 60;
const WHITE: [u8; 3] = [255, 255, 255];

fn blank() -> Vec<u8> {
    vec![255u8; (W * H * 4) as usize]
}

fn paint(rgba: &mut Vec<u8>, x: u32, y: u32) {
    let off = ((y * W + x) * 4) as usize;
    rgba[off] = 0;
    rgba[off + 1] = 0;
    rgba[off + 2] = 0;
}

fn full_mask() -> Vec<bool> {
    vec![true; (W * H) as usize]
}

#[test]
fn background_colour_within_tolerance() {
    assert!(is_bg_color([255, 255, 255], WHITE));
    assert!(is_bg_color([225, 240, 255], WHITE));
    assert!(!is_bg_color([224, 255, 255], WHITE));
    assert!(!is_bg_color([0, 0, 0], WHITE));
    assert!(is_bg_color([30, 0, 10], [0, 0, 0]));
    assert!(!is_bg_color([31, 0, 0], [0, 0, 0]));
}

#[test]
fn empty_mask_finds_no_axis() {
    let mut rgba = blank();
    for x in 5..55 {
        paint(&mut rgba, x, 50);
    }
    let mask = vec![false; (W * H) as usize];
    let r = analyze_mask_for_axes(&rgba, &mask, W, H, WHITE);
    assert_eq!(r.x_axis, None);
    assert_eq!(r.y_axis, None);
    assert!(r.x_axis_pixels.is_empty());
    assert!(r.y_axis_pixels.is_empty());
    assert!(r.x_ticks.is_empty());
    assert!(r.y_ticks.is_empty());
}

#[test]
fn small_noise_is_dropped() {
    let mut rgba = blank();
    for x in 10..15 {
        paint(&mut rgba, x, 10);
    }
    paint(&mut rgba, 40, 40);
    let r = analyze_mask_for_axes(&rgba, &full_mask(), W, H, WHITE);
    assert_eq!(r.x_axis, None);
    assert_eq!(r.y_axis, None);
    assert!(r.x_axis_pixels.is_empty());
}

#[test]
fn horizontal_line_is_x_axis() {
    let mut rgba = blank();
    for x in 5..55 {
        paint(&mut rgba, x, 50);
    }
    let r = analyze_mask_for_axes(&rgba, &full_mask(), W, H, WHITE);
    assert_eq!(r.x_axis, Some(((5, 50), (54, 50))));
    assert_eq!(r.y_axis, None);
    assert_eq!(r.x_axis_pixels.len(), 50);
    for x in 5..55 {
        assert!(r.x_axis_pixels.contains(&(x, 50)));
    }
    assert!(r.x_ticks.is_empty());
    assert!(r.y_axis_pixels.is_empty());
}

#[test]
fn vertical_line_is_y_axis() {
    let mut rgba = blank();
    for y in 3..43 {
        paint(&mut rgba, 8, y);
    }
    let r = analyze_mask_for_axes(&rgba, &full_mask(), W, H, WHITE);
    assert_eq!(r.x_axis, None);
    assert_eq!(r.y_axis, Some(((8, 3), (8, 42))));
    assert_eq!(r.y_axis_pixels.len(), 40);
    assert!(r.y_ticks.is_empty());
}

#[test]
fn tick_marks_become_end_points() {
    let mut rgba = blank();
    for x in 5..55 {
        paint(&mut rgba, x, 50);
    }
    for &x in &[15u32, 35] {
        paint(&mut rgba, x, 51);
        paint(&mut rgba, x, 52);
    }
    let r = analyze_mask_for_axes(&rgba, &full_mask(), W, H, WHITE);
    assert_eq!(r.x_ticks, vec![(15, 50), (35, 50)]);
    assert_eq!(r.x_axis, Some(((15, 50), (35, 50))));
    assert_eq!(r.x_axis_pixels.len(), 54);
}

#[test]
fn short_protrusion_is_no_tick() {
    let mut rgba = blank();
    for x in 5..55 {
        paint(&mut rgba, x, 50);
    }
    paint(&mut rgba, 20, 51);
    let r = analyze_mask_for_axes(&rgba, &full_mask(), W, H, WHITE);
    assert!(r.x_ticks.is_empty());
    assert_eq!(r.x_axis, Some(((5, 50), (54, 50))));
}

#[test]
fn wide_bump_is_no_tick() {
    let mut rgba = blank();
    for x in 5..55 {
        paint(&mut rgba, x, 50);
    }
    for x in 20..33 {
        paint(&mut rgba, x, 51);
        paint(&mut rgba, x, 52);
    }
    let r = analyze_mask_for_axes(&rgba, &full_mask(), W, H, WHITE);
    assert!(r.x_ticks.is_empty());
}

#[test]
fn l_shape_is_split_between_axes() {
    let mut rgba = blank();
    for x in 5..55 {
        paint(&mut rgba, x, 50);
    }
    for y in 5..50 {
        paint(&mut rgba, 5, y);
    }
    let r = analyze_mask_for_axes(&rgba, &full_mask(), W, H, WHITE);
    // The stub of the other axis sticks out of each line at the corner, so it reads as a tick.
    assert_eq!(r.x_ticks, vec![(5, 50)]);
    assert_eq!(r.y_ticks, vec![(5, 50)]);
    assert_eq!(r.x_axis, Some(((5, 50), (5, 50))));
    assert_eq!(r.y_axis, Some(((5, 50), (5, 50))));
    // x pool: the whole horizontal line and the y-axis pixels within reach of its crosshair.
    assert_eq!(r.x_axis_pixels.len(), 50 + 12);
    // y pool: the whole vertical line and the first pixels of the horizontal one.
    assert_eq!(r.y_axis_pixels.len(), 46 + 12);
}

#[test]
fn axis_end_points_lie_on_the_axis_line() {
    let mut rgba = blank();
    for x in 2..58 {
        paint(&mut rgba, x, 30);
    }
    paint(&mut rgba, 10, 28);
    paint(&mut rgba, 10, 29);
    paint(&mut rgba, 50, 31);
    paint(&mut rgba, 50, 32);
    let r = analyze_mask_for_axes(&rgba, &full_mask(), W, H, WHITE);
    let (a, b) = r.x_axis.unwrap();
    assert_eq!(a.1, 30);
    assert_eq!(b.1, 30);
    assert!(a.0 <= b.0);
    assert_eq!(r.x_ticks, vec![(10, 30), (50, 30)]);
}

#[test]
fn masked_out_line_is_ignored() {
    let mut rgba = blank();
    for x in 5..55 {
        paint(&mut rgba, x, 50);
    }
    let mut mask = full_mask();
    for x in 0..W {
        mask[(50 * W + x) as usize] = false;
    }
    let r = analyze_mask_for_axes(&rgba, &mask, W, H, WHITE);
    assert_eq!(r.x_axis, None);
}

#[test]
fn foreground_grid_marks_pixels() {
    // 2 by 2: white, black, near-white, red.
    let rgba = vec![255, 255, 255, 255, 0, 0, 0, 255, 250, 250, 250, 255, 100, 0, 0, 255];
    let mask = vec![true, true, true, true];
    let fg = foreground_grid(&rgba, &mask, 2, 2, WHITE);
    assert_eq!(fg, vec![false, true, false, true]);
}

#[test]
fn foreground_pixels_in_row_order() {
    let rgba = vec![255, 255, 255, 255, 0, 0, 0, 255, 250, 250, 250, 255, 100, 0, 0, 255];
    let mask = vec![true, true, true, true];
    let px = foreground_pixels(&rgba, &mask, 2, 2, WHITE);
    assert_eq!(px, vec![((0, 0, 0), 1, 0), ((100, 0, 0), 1, 1)]);
    let mask2 = vec![true, true, true, false];
    assert_eq!(foreground_pixels(&rgba, &mask2, 2, 2, WHITE), vec![((0, 0, 0), 1, 0)]);
}

#[test]
fn missing_colour_data_is_not_foreground() {
    // Colour data for only the first pixel.
    let rgba = vec![0, 0, 0, 255];
    let mask = vec![true, true];
    assert_eq!(foreground_pixels(&rgba, &mask, 2, 1, WHITE), vec![((0, 0, 0), 0, 0)]);
}

#[test]
fn line_threshold_grows_with_image_size() {
    // For a 700 by 700 image a line needs 3% of 700 = 21 pixels in its densest 3-row window.
    let (w, h) = (700u32, 700u32);
    let mask = vec![true; (w * h) as usize];
    for (len, found) in [(20u32, false), (21u32, true)] {
        let mut rgba = vec![255u8; (w * h * 4) as usize];
        for x in 100..100 + len {
            let off = ((300 * w + x) * 4) as usize;
            rgba[off] = 0;
            rgba[off + 1] = 0;
            rgba[off + 2] = 0;
        }
        let r = analyze_mask_for_axes(&rgba, &mask, w, h, WHITE);
        assert_eq!(r.x_axis.is_some(), found, "line of {} pixels", len);
        if found {
            assert_eq!(r.x_axis, Some(((100, 300), (100 + len - 1, 300))));
        }
    }
}
