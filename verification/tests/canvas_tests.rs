use chunk_canvas::canvas::Canvas;
use chunk_canvas::chunk::PixelState;

fn sorted(mut v: Vec<usize>) -> Vec<usize> {
    v.sort();
    v
}

#[test]
fn fresh_canvas_is_all_off_with_empty_dirty_set() {
    let mut c = Canvas::new(2, 2);
    for gy in 0..128 {
        for gx in 0..128 {
            assert_eq!(c.get_pixel(gx, gy), 0);
        }
    }
    assert!(c.drain_dirty().is_empty());
}

#[test]
fn is_oob_at_the_boundary() {
    let c = Canvas::new(2, 2);
    // the grid is 2 * 64 = 128 pixels wide and tall
    assert!(!c.is_oob(127, 0));
    assert!(!c.is_oob(0, 127));
    assert!(!c.is_oob(127, 127));
    assert!(c.is_oob(128, 0));
    assert!(c.is_oob(0, 128));
    assert!(c.is_oob(128, 128));
}

#[test]
fn set_pixel_addresses_chunk_one() {
    let mut c = Canvas::new(2, 2);
    // floor(65/64) = 1, floor(5/64) = 0, so chunk index 0*2 + 1 = 1,
    // at local coordinate (1, 5)
    c.set_pixel(65, 5, PixelState::On);
    assert_eq!(c.get_pixel(65, 5), 1);
    assert_eq!(c.chunk_at(1).get_pixel(1, 5), 1);
    assert_eq!(c.drain_dirty(), vec![1]);
}

#[test]
fn set_and_clear_round_trip() {
    let mut c = Canvas::new(2, 2);
    c.set_pixel(100, 70, PixelState::On);
    assert_eq!(c.get_pixel(100, 70), 1);
    c.set_pixel(100, 70, PixelState::Off);
    assert_eq!(c.get_pixel(100, 70), 0);
}

#[test]
fn oob_set_pixel_is_a_no_op() {
    let mut c = Canvas::new(2, 2);
    c.set_pixel(128, 0, PixelState::On);
    c.set_pixel(0, 128, PixelState::On);
    c.set_pixel(4000, 4000, PixelState::On);
    assert!(c.drain_dirty().is_empty());
}

#[test]
fn drain_dirty_returns_exactly_the_touched_chunks() {
    let mut c = Canvas::new(2, 2);
    // touch chunks 0, 1 and 3; chunk 0 twice
    c.set_pixel(0, 0, PixelState::On);
    c.set_pixel(63, 63, PixelState::On);
    c.set_pixel(64, 0, PixelState::On);
    c.set_pixel(127, 127, PixelState::On);
    assert_eq!(sorted(c.drain_dirty()), vec![0, 1, 3]);
    // a second immediate drain returns the empty set
    assert!(c.drain_dirty().is_empty());
}

#[test]
fn drain_dirty_leaves_pixels_alone() {
    let mut c = Canvas::new(2, 2);
    c.set_pixel(65, 5, PixelState::On);
    c.drain_dirty();
    assert_eq!(c.get_pixel(65, 5), 1);
}

#[test]
fn circle_with_zero_radius_stamps_nothing() {
    let mut c = Canvas::new(2, 2);
    c.circle(10, 10, 0);
    assert!(c.drain_dirty().is_empty());
    assert_eq!(c.get_pixel(10, 10), 0);
}

#[test]
fn circle_with_oob_center_is_a_no_op() {
    let mut c = Canvas::new(2, 2);
    c.circle(128, 10, 5);
    c.circle(10, 500, 5);
    assert!(c.drain_dirty().is_empty());
}

#[test]
fn circle_at_origin_touches_only_chunk_zero() {
    let mut c = Canvas::new(2, 2);
    c.circle(0, 0, 5);
    assert_eq!(c.get_pixel(0, 0), 1);
    assert_eq!(c.drain_dirty(), vec![0]);
    // nothing stamped beyond the clamped disk near the origin
    for gy in 0..128 {
        for gx in 0..128 {
            if gx >= 5 && gy >= 5 {
                assert_eq!(c.get_pixel(gx, gy), 0);
            }
        }
    }
}

#[test]
fn circle_far_from_edges_is_symmetric() {
    let mut c = Canvas::new(2, 2);
    c.circle(40, 40, 6);
    for dy in -6i32..=6 {
        for dx in -6i32..=6 {
            let plus = c.get_pixel((40 + dx) as u32, (40 + dy) as u32);
            let minus = c.get_pixel((40 - dx) as u32, (40 - dy) as u32);
            assert_eq!(plus, minus);
        }
    }
    // the center and the four axial extremes at offset 5 are on
    assert_eq!(c.get_pixel(40, 40), 1);
    assert_eq!(c.get_pixel(45, 40), 1);
    assert_eq!(c.get_pixel(35, 40), 1);
    assert_eq!(c.get_pixel(40, 45), 1);
    assert_eq!(c.get_pixel(40, 35), 1);
    // offset 6 is outside the disk
    assert_eq!(c.get_pixel(46, 40), 0);
}

#[test]
fn circle_marks_every_chunk_it_stamps() {
    let mut c = Canvas::new(2, 2);
    // centered on the seam between all four chunks
    c.circle(64, 64, 3);
    assert_eq!(sorted(c.drain_dirty()), vec![0, 1, 2, 3]);
}

#[test]
fn chunk_placement_matches_the_index_formula() {
    let c = Canvas::new(3, 2);
    assert_eq!(c.width(), 3);
    assert_eq!(c.height(), 2);
    assert_eq!(c.chunks_len(), 6);
    // chunk 4 sits at grid position (1, 1): pixel offset (64, 64)
    assert_eq!(c.chunk_origin(4), (64, 64));
    assert_eq!(c.chunk_origin(0), (0, 0));
    assert_eq!(c.chunk_origin(5), (128, 64));
}
