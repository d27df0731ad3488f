use font8x8::UnicodeFonts;
use raytracer::framebuffer::apply_batch_to_frame;
use raytracer::pixel::PixelBatchUpdate;
use raytracer::text::render_string_line_at_position;

#[test]
fn replayed_line_shows_glyph_over_background() {
    let width = 64u32;
    let height = 32u32;
    let mut frame = vec![7u8; (width * height * 4) as usize];

    let line = vec![b'A'];
    let pixels = render_string_line_at_position(4, 4, &line);
    apply_batch_to_frame(&mut frame, width, &PixelBatchUpdate { pixels });

    let glyph = font8x8::BASIC_FONTS.get('A').expect("glyph");
    for gy in 0..8u32 {
        for gx in 0..8u32 {
            let lit = (glyph[gy as usize] >> gx) & 1 == 1;
            // the glyph origin is the band origin plus the cell padding
            let px = 4 + 2 + 2 * gx;
            let py = 4 + 2 + 2 * gy;
            let off = ((py * width + px) * 4) as usize;
            let expected = if lit { [255, 255, 255, 255] } else { [0, 0, 0, 255] };
            assert_eq!(&frame[off..off + 4], &expected, "glyph bit ({gx}, {gy})");
        }
    }

    // a band corner holds background, and a pixel outside the band is
    // untouched
    let corner = ((4 * width + 4) * 4) as usize;
    assert_eq!(&frame[corner..corner + 4], &[0, 0, 0, 255]);
    let outside = ((30 * width + 60) * 4) as usize;
    assert_eq!(&frame[outside..outside + 4], &[7, 7, 7, 7]);
}
