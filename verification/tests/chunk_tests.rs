use chunk_canvas::chunk::{Chunk, PixelState};

#[test]
fn fresh_chunk_is_all_off() {
    let c = Chunk::new();
    for y in 0..64 {
        for x in 0..64 {
            assert_eq!(c.get_pixel(x, y), 0);
        }
    }
}

#[test]
fn snapshot_of_fresh_chunk_is_zero_bytes() {
    let c = Chunk::new();
    let data = c.snapshot();
    assert_eq!(data.len(), 512);
    assert!(data.iter().all(|&b| b == 0));
}

#[test]
fn set_pixel_is_exact_not_a_toggle() {
    let mut c = Chunk::new();
    c.set_pixel(3, 7, PixelState::On);
    assert_eq!(c.get_pixel(3, 7), 1);
    // setting again to the same state is a no-op on the bit value
    c.set_pixel(3, 7, PixelState::On);
    assert_eq!(c.get_pixel(3, 7), 1);
    c.set_pixel(3, 7, PixelState::Off);
    assert_eq!(c.get_pixel(3, 7), 0);
    c.set_pixel(3, 7, PixelState::Off);
    assert_eq!(c.get_pixel(3, 7), 0);
}

#[test]
fn set_pixel_leaves_neighbours_alone() {
    let mut c = Chunk::new();
    c.set_pixel(8, 1, PixelState::On);
    assert_eq!(c.get_pixel(8, 1), 1);
    assert_eq!(c.get_pixel(7, 1), 0);
    assert_eq!(c.get_pixel(9, 1), 0);
    assert_eq!(c.get_pixel(8, 0), 0);
    assert_eq!(c.get_pixel(8, 2), 0);
}

#[test]
fn set_pixel_packs_bits_row_major() {
    let mut c = Chunk::new();
    // pixel (9, 0) lives in bit 1 of byte 8*0 + 9/8 = 1
    c.set_pixel(9, 0, PixelState::On);
    assert_eq!(c.snapshot()[1], 0b10);
    // pixel (0, 2) lives in bit 0 of byte 8*2 = 16
    c.set_pixel(0, 2, PixelState::On);
    assert_eq!(c.snapshot()[16], 0b1);
}

#[test]
fn flip_pixel_toggles() {
    let mut c = Chunk::new();
    c.flip_pixel(10, 20);
    assert_eq!(c.get_pixel(10, 20), 1);
    c.set_pixel(10, 20, PixelState::On);
    c.flip_pixel(10, 20);
    assert_eq!(c.get_pixel(10, 20), 0);
}

#[test]
fn flip_pixel_twice_restores_every_pixel() {
    let mut c = Chunk::new();
    c.set_pixel(1, 1, PixelState::On);
    c.set_pixel(63, 63, PixelState::On);
    let before: Vec<u8> = c.snapshot().clone();
    c.flip_pixel(1, 1);
    c.flip_pixel(1, 1);
    c.flip_pixel(0, 0);
    c.flip_pixel(0, 0);
    assert_eq!(c.snapshot(), &before);
}

#[test]
fn randomize_data_keeps_storage_size() {
    let mut c = Chunk::new();
    c.randomize_data();
    assert_eq!(c.snapshot().len(), 512);
}
