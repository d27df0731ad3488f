use font8x8::UnicodeFonts;
use raytracer::pixel::Rgba8;
use raytracer::text::{
    render_char_at_position, render_string_at_position, render_string_line_at_position,
};

const WHITE: Rgba8 = Rgba8 { r: 255, g: 255, b: 255, a: 255 };
const BLACK: Rgba8 = Rgba8 { r: 0, g: 0, b: 0, a: 255 };

/// The positions the doubled glyph of `c` should light, relative to the
/// glyph origin, straight from the font table.
fn expected_blocks(c: char) -> Vec<(u32, u32)> {
    let glyph = font8x8::BASIC_FONTS
        .get(c)
        .or_else(|| font8x8::LATIN_FONTS.get(c))
        .expect("glyph");
    let mut out = Vec::new();
    for (gy, row) in glyph.iter().enumerate() {
        for gx in 0..8u32 {
            if (row >> gx) & 1 == 1 {
                let x = 2 * gx;
                let y = 2 * gy as u32;
                out.push((x, y));
                out.push((x + 1, y));
                out.push((x, y + 1));
                out.push((x + 1, y + 1));
            }
        }
    }
    out
}

#[test]
fn char_pixels_follow_the_font_bitmap() {
    let pixels = render_char_at_position(100, 50, b'A');
    let expected = expected_blocks('A');
    assert!(!expected.is_empty());
    assert_eq!(pixels.len(), expected.len());
    for (p, (dx, dy)) in pixels.iter().zip(expected.iter()) {
        assert_eq!(p.position(), (100 + dx, 50 + dy));
        assert_eq!(p.color(), WHITE);
    }
}

#[test]
fn extended_latin_bytes_fall_through_to_the_latin_table() {
    // 0xC8 is not in the basic table, so the lookup must fall through
    let pixels = render_char_at_position(0, 0, 0xC8);
    let expected = expected_blocks('\u{C8}');
    assert_eq!(pixels.len(), expected.len());
    assert!(!pixels.is_empty());
}

#[test]
fn line_renders_background_then_glyphs() {
    let line = vec![b'H', b'i'];
    let pixels = render_string_line_at_position(10, 20, &line);
    // 20 rows of 40 background pixels come first
    assert!(pixels.len() > 800);
    for (j, p) in pixels.iter().take(800).enumerate() {
        let (x, y) = p.position();
        assert_eq!(x, 10 + (j as u32 % 40));
        assert_eq!(y, 20 + (j as u32 / 40));
        assert_eq!(p.color(), BLACK);
    }
    // the glyphs of 'H' then 'i' follow, offset by the cell padding
    let h_blocks = expected_blocks('H');
    let i_blocks = expected_blocks('i');
    assert_eq!(pixels.len(), 800 + h_blocks.len() + i_blocks.len());
    for (p, (dx, dy)) in pixels.iter().skip(800).zip(h_blocks.iter()) {
        assert_eq!(p.position(), (12 + dx, 22 + dy));
        assert_eq!(p.color(), WHITE);
    }
    for (p, (dx, dy)) in pixels.iter().skip(800 + h_blocks.len()).zip(i_blocks.iter()) {
        assert_eq!(p.position(), (32 + dx, 22 + dy));
    }
}

#[test]
fn text_block_stacks_lines_twenty_pixels_apart() {
    let batch = render_string_at_position(10, 10, "A\nB");
    let a_blocks = expected_blocks('A');
    let b_blocks = expected_blocks('B');
    // each line: 400 background pixels then its glyph
    assert_eq!(batch.pixels.len(), 400 + a_blocks.len() + 400 + b_blocks.len());
    let second_line = &batch.pixels[400 + a_blocks.len()..];
    for (j, p) in second_line.iter().take(400).enumerate() {
        let (x, y) = p.position();
        assert_eq!(x, 10 + (j as u32 % 20));
        assert_eq!(y, 30 + (j as u32 / 20));
        assert_eq!(p.color(), BLACK);
    }
    for (p, (dx, dy)) in second_line.iter().skip(400).zip(b_blocks.iter()) {
        assert_eq!(p.position(), (12 + dx, 32 + dy));
        assert_eq!(p.color(), WHITE);
    }
}

#[test]
fn empty_string_renders_one_empty_line() {
    let batch = render_string_at_position(0, 0, "");
    assert!(batch.pixels.is_empty());
}

#[test]
fn tab_occupies_a_cell_without_glyph_pixels() {
    let batch = render_string_at_position(0, 0, "\t");
    // one cell of background, and a blank glyph on top of it
    assert_eq!(
        batch.pixels.iter().filter(|p| p.color() == BLACK).count(),
        400
    );
    assert_eq!(batch.pixels.iter().filter(|p| p.color() == WHITE).count(), {
        let glyph = font8x8::BASIC_FONTS.get('\t').expect("tab glyph");
        4 * glyph.iter().map(|row| row.count_ones() as usize).sum::<usize>()
    });
}
