use rust_doom::text::{blend_pixel, draw_pixel};

#[test]
fn blending_follows_coverage() {
    assert_eq!(blend_pixel(0x0080, 0), 0x0080);
    assert_eq!(blend_pixel(0x1234, 0), 0x1234);
    assert_eq!(blend_pixel(0x0080, 256), 0xffff);
    assert_eq!(blend_pixel(0x0080, 128), 0x7fff);
}

#[test]
fn drawing_touches_one_pixel_inside_the_buffer() {
    let mut buffer = vec![0x0080u16; 6];
    draw_pixel(&mut buffer, 3, 2, 1, 1, 256);
    assert_eq!(buffer, vec![0x0080, 0x0080, 0x0080, 0x0080, 0xffff, 0x0080]);
    draw_pixel(&mut buffer, 3, 2, 3, 0, 256);
    draw_pixel(&mut buffer, 3, 2, 0, 2, 256);
    assert_eq!(buffer, vec![0x0080, 0x0080, 0x0080, 0x0080, 0xffff, 0x0080]);
}
