use bevmnist::RasterCanvas;
use bevmnist::StrokePoint;

fn snapshot(c: &RasterCanvas, w: i64, h: i64) -> Vec<u8> {
    let mut out = Vec::new();
    for y in 0..h {
        for x in 0..w {
            out.push(c.get_pixel(x, y));
        }
    }
    out
}

#[test]
fn out_of_range_reads_are_zero() {
    let c = RasterCanvas::new(8, 8);
    assert_eq!(c.get_pixel(-1, 0), 0);
    assert_eq!(c.get_pixel(0, -1), 0);
    assert_eq!(c.get_pixel(8, 0), 0);
    assert_eq!(c.get_pixel(0, 8), 0);
    assert_eq!(c.get_pixel(1000, 1000), 0);
    assert_eq!(c.get_pixel(i64::MIN, i64::MAX), 0);
}

#[test]
fn out_of_range_writes_are_dropped() {
    let mut c = RasterCanvas::new(8, 8);
    c.set_pixel(3, 4, 200);
    let before = snapshot(&c, 8, 8);
    c.set_pixel(-1, 0, 255);
    c.set_pixel(0, -1, 255);
    c.set_pixel(8, 0, 255);
    c.set_pixel(0, 8, 255);
    c.set_pixel(i64::MAX, 2, 255);
    let after = snapshot(&c, 8, 8);
    assert_eq!(before, after);
}

#[test]
fn set_then_get_round_trips_in_range() {
    let mut c = RasterCanvas::new(8, 8);
    c.set_pixel(0, 0, 17);
    c.set_pixel(7, 7, 99);
    c.set_pixel(2, 5, 128);
    assert_eq!(c.get_pixel(0, 0), 17);
    assert_eq!(c.get_pixel(7, 7), 99);
    assert_eq!(c.get_pixel(2, 5), 128);
    assert_eq!(c.get_pixel(5, 2), 0);
}

#[test]
fn clear_twice_equals_clear_once() {
    let mut c = RasterCanvas::new(16, 16);
    c.set_pixel(1, 1, 255);
    c.set_pixel(10, 3, 40);
    c.clear();
    let once = snapshot(&c, 16, 16);
    c.clear();
    let twice = snapshot(&c, 16, 16);
    assert_eq!(once, twice);
    assert!(once.iter().all(|&v| v == 0));
}

#[test]
fn draw_stamps_a_disc_with_flipped_y() {
    // Node size equals the texture size, so the scale is 1 and the radius is
    // (13 * 600 + 280) / 560 = 14.
    let mut c = RasterCanvas::new(600, 600);
    c.draw(StrokePoint { x: 300, y: 10 }, 600, 600);
    // The stamp lands around (300, 590): the vertical axis flips.
    assert_eq!(c.get_pixel(300, 590), 255);
    assert_eq!(c.get_pixel(300, 10), 0);
    // Distance 13 is strictly inside the radius-14 disc, distance 14 is not.
    assert_eq!(c.get_pixel(287, 590), 255);
    assert_eq!(c.get_pixel(286, 590), 0);
    assert_eq!(c.get_pixel(300, 577), 255);
    assert_eq!(c.get_pixel(300, 576), 0);
}

#[test]
fn draw_near_border_drops_out_of_range_pixels() {
    let mut c = RasterCanvas::new(600, 600);
    // Stamp centered on the top-left canvas corner: (0, 600) flips to row 0.
    c.draw(StrokePoint { x: 0, y: 600 }, 600, 600);
    assert_eq!(c.get_pixel(0, 0), 255);
    assert_eq!(c.get_pixel(13, 0), 255);
    assert_eq!(c.get_pixel(-1, 0), 0);
    assert_eq!(c.get_pixel(599, 599), 0);
}

#[test]
fn draw_with_degenerate_node_is_a_no_op() {
    let mut c = RasterCanvas::new(64, 64);
    c.draw(StrokePoint { x: 32, y: 32 }, 0, 0);
    assert!(snapshot(&c, 64, 64).iter().all(|&v| v == 0));
}

#[test]
fn draw_with_scale_expands_blocks() {
    // Texture twice the node size: every logical pixel becomes a 2x2 block.
    let mut c = RasterCanvas::new(112, 112);
    // Node 56: radius (13 * 56 + 280) / 560 = 1, so only the center offset
    // lies strictly inside the disc.
    c.draw(StrokePoint { x: 28, y: 28 }, 56, 56);
    // Center logical pixel (28, 28) maps to texture block at (56, 56).
    assert_eq!(c.get_pixel(56, 56), 255);
    assert_eq!(c.get_pixel(57, 56), 255);
    assert_eq!(c.get_pixel(56, 57), 255);
    assert_eq!(c.get_pixel(57, 57), 255);
    assert_eq!(c.get_pixel(58, 56), 0);
    assert_eq!(c.get_pixel(55, 56), 0);
}
