use voxel_tracer::color::{color_to_u32, Rgba};
use voxel_tracer::framebuffer::Framebuffer;

#[test]
fn packs_red_in_low_byte() {
    let c = Rgba { r: 1, g: 2, b: 3, a: 4 };
    assert_eq!(color_to_u32(c), 0x0403_0201);
}

#[test]
fn packs_sky_blue() {
    let c = Rgba { r: 135, g: 206, b: 250, a: 255 };
    assert_eq!(color_to_u32(c), 0xFFFA_CE87);
}

#[test]
fn packs_white_and_black() {
    assert_eq!(color_to_u32(Rgba::white()), 0xFFFF_FFFF);
    assert_eq!(color_to_u32(Rgba { r: 0, g: 0, b: 0, a: 0 }), 0);
}

#[test]
fn new_buffer_is_zero() {
    let fb = Framebuffer::new(4, 3);
    assert_eq!(fb.width(), 4);
    assert_eq!(fb.height(), 3);
    assert_eq!(fb.pixels().len(), 12);
    assert!(fb.pixels().iter().all(|&p| p == 0));
}

#[test]
fn empty_buffer() {
    let fb = Framebuffer::new(0, 5);
    assert_eq!(fb.pixels().len(), 0);
    assert_eq!(fb.get_pixel(0, 0), None);
}

#[test]
fn set_pixel_writes_row_major() {
    let mut fb = Framebuffer::new(4, 3);
    fb.set_pixel(1, 2, 9);
    assert_eq!(fb.get_pixel(1, 2), Some(9));
    assert_eq!(fb.pixels()[2 * 4 + 1], 9);
    assert_eq!(fb.pixels().iter().filter(|&&p| p != 0).count(), 1);
}

#[test]
fn set_pixel_outside_is_ignored() {
    let mut fb = Framebuffer::new(4, 3);
    fb.set_pixel(4, 0, 9);
    fb.set_pixel(0, 3, 9);
    fb.set_pixel(u32::MAX, u32::MAX, 9);
    assert!(fb.pixels().iter().all(|&p| p == 0));
    assert_eq!(fb.get_pixel(4, 0), None);
}

#[test]
fn clear_fills_every_cell() {
    let mut fb = Framebuffer::new(5, 2);
    fb.set_pixel(3, 1, 1);
    fb.clear(0xFFFA_CE87);
    assert!(fb.pixels().iter().all(|&p| p == 0xFFFA_CE87));
    assert_eq!(fb.pixels().len(), 10);
}

#[test]
fn last_write_wins() {
    let mut fb = Framebuffer::new(3, 3);
    let writes = vec![(0, 0, 1), (2, 2, 5), (0, 0, 2), (7, 0, 8), (1, 9, 8)];
    fb.write_pixels(&writes);
    assert_eq!(fb.get_pixel(0, 0), Some(2));
    assert_eq!(fb.get_pixel(2, 2), Some(5));
    assert_eq!(fb.get_pixel(1, 0), Some(0));
    assert_eq!(fb.pixels().iter().filter(|&&p| p == 8).count(), 0);
}
