use raytracer::framebuffer::{apply_batch_to_frame, write_pixel_to_frame};
use raytracer::pixel::{Pixel, PixelBatchUpdate, Rgba8};

#[test]
fn pixel_lands_at_its_byte_offset() {
    let width = 4u32;
    let mut frame = vec![0u8; (4 * 4 * 4) as usize];
    let p = Pixel::new(2, 1, Rgba8 { r: 9, g: 8, b: 7, a: 255 });
    write_pixel_to_frame(&mut frame, width, &p);
    let off = ((1 * width + 2) * 4) as usize;
    assert_eq!(&frame[off..off + 4], &[9, 8, 7, 255]);
    // every other byte is untouched
    for (i, b) in frame.iter().enumerate() {
        if i < off || i >= off + 4 {
            assert_eq!(*b, 0, "byte {i}");
        }
    }
}

#[test]
fn out_of_range_pixel_is_skipped() {
    let mut frame = vec![0u8; 16];
    let p = Pixel::new(7, 7, Rgba8 { r: 1, g: 1, b: 1, a: 1 });
    write_pixel_to_frame(&mut frame, 2, &p);
    assert_eq!(frame, vec![0u8; 16]);
}

#[test]
fn batch_replays_in_order() {
    let width = 2u32;
    let mut frame = vec![0u8; 16];
    let batch = PixelBatchUpdate {
        pixels: vec![
            Pixel::new(0, 0, Rgba8 { r: 1, g: 1, b: 1, a: 255 }),
            Pixel::new(1, 1, Rgba8 { r: 2, g: 2, b: 2, a: 255 }),
            // a second write to (0, 0) wins over the first
            Pixel::new(0, 0, Rgba8 { r: 3, g: 3, b: 3, a: 255 }),
        ],
    };
    apply_batch_to_frame(&mut frame, width, &batch);
    assert_eq!(&frame[0..4], &[3, 3, 3, 255]);
    assert_eq!(&frame[12..16], &[2, 2, 2, 255]);
    assert_eq!(&frame[4..12], &[0u8; 8]);
}
