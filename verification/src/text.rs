//! The text overlay rasterizer.
//!
//! The progress reporter turns its numbers into a small block of text and
//! sends it down the same pixel channel the renderer uses.  Each character
//! is an 8 by 8 bitmap from the font tables, doubled to 16 by 16 and set in
//! a 20-pixel grid over an opaque black background.  The contracts describe
//! every emitted pixel: its position, its colour, and its place in the
//! batch, so the later foreground writes win over the background exactly as
//! the framebuffer replays them.

use font8x8::UnicodeFonts;
use vstd::prelude::*;
use vstd::string::StringSliceAdditionalSpecFns;

use crate::pixel::{Pixel, PixelBatchUpdate, Rgba8};

verus! {

/// The bitmap the basic font table (U+0000 through U+007F) holds for a
/// byte, if any.
pub uninterp spec fn basic_glyph(c: u8) -> Option<Seq<u8>>;

/// The bitmap the extended-Latin font table (U+00A0 through U+00FF) holds
/// for a byte, if any.
pub uninterp spec fn latin_glyph(c: u8) -> Option<Seq<u8>>;

/// The bitmap the Greek font table holds for a byte, if any.
pub uninterp spec fn greek_glyph(c: u8) -> Option<Seq<u8>>;

/// Relies on font8x8's `BASIC_FONTS.get`: an 8-byte bitmap determined by
/// the character alone, present for every character of U+0000 through
/// U+007F.
#[verifier::external_body]
fn basic_glyph_lookup(c: u8) -> (r: Option<Vec<u8>>)
    ensures
        match r {
            Some(v) => basic_glyph(c) == Some(v@) && v@.len() == 8,
            None => basic_glyph(c) is None,
        },
        c < 128 ==> r is Some,
{
    font8x8::BASIC_FONTS.get(c as char).map(|g| g.to_vec())
}

/// Relies on font8x8's `LATIN_FONTS.get`: an 8-byte bitmap determined by
/// the character alone.
#[verifier::external_body]
fn latin_glyph_lookup(c: u8) -> (r: Option<Vec<u8>>)
    ensures
        match r {
            Some(v) => latin_glyph(c) == Some(v@) && v@.len() == 8,
            None => latin_glyph(c) is None,
        },
{
    font8x8::LATIN_FONTS.get(c as char).map(|g| g.to_vec())
}

/// Relies on font8x8's `GREEK_FONTS.get`: an 8-byte bitmap determined by
/// the character alone.
#[verifier::external_body]
fn greek_glyph_lookup(c: u8) -> (r: Option<Vec<u8>>)
    ensures
        match r {
            Some(v) => greek_glyph(c) == Some(v@) && v@.len() == 8,
            None => greek_glyph(c) is None,
        },
{
    font8x8::GREEK_FONTS.get(c as char).map(|g| g.to_vec())
}

/// The bitmap the overlay draws for a byte: the basic table first, then
/// extended Latin, then Greek.
pub open spec fn glyph_of(c: u8) -> Option<Seq<u8>> {
    if basic_glyph(c) is Some {
        basic_glyph(c)
    } else if latin_glyph(c) is Some {
        latin_glyph(c)
    } else {
        greek_glyph(c)
    }
}

/// Looks a byte up across the three font tables in overlay order.
fn lookup_glyph(c: u8) -> (r: Option<Vec<u8>>)
    ensures
        match r {
            Some(v) => glyph_of(c) == Some(v@) && v@.len() == 8,
            None => glyph_of(c) is None,
        },
        c < 128 ==> r is Some,
{
    let basic = basic_glyph_lookup(c);
    if basic.is_some() {
        return basic;
    }
    let latin = latin_glyph_lookup(c);
    if latin.is_some() {
        return latin;
    }
    greek_glyph_lookup(c)
}

/// The foreground colour of the overlay.
pub open spec fn overlay_fg() -> Rgba8 {
    Rgba8 { r: 255, g: 255, b: 255, a: 255 }
}

/// The background colour of the overlay.
pub open spec fn overlay_bg() -> Rgba8 {
    Rgba8 { r: 0, g: 0, b: 0, a: 255 }
}

/// Is bit `gx` of glyph row `gy` set?
pub open spec fn glyph_bit(glyph: Seq<u8>, gx: int, gy: int) -> bool {
    (glyph[gy] >> (gx as u8)) & 1 == 1
}

/// A described pixel: position and colour, before it is packed into a
/// `Pixel` value.
pub type PixelDesc = (int, int, Rgba8);

/// Does the pixel at `ps[j]` carry exactly the described position and
/// colour?
pub open spec fn pixel_matches(p: Pixel, d: PixelDesc) -> bool {
    &&& p.spec_x() == d.0
    &&& p.spec_y() == d.1
    &&& p.spec_color() == d.2
}

/// Do the pixels match the description entry by entry?
pub open spec fn pixels_match(ps: Seq<Pixel>, ds: Seq<PixelDesc>) -> bool {
    &&& ps.len() == ds.len()
    &&& forall|j: int| 0 <= j < ps.len() ==> pixel_matches(#[trigger] ps[j], ds[j])
}

/// The four doubled pixels of glyph cell `i` (row `i / 8`, bit `i % 8`),
/// or nothing where the bit is clear.
pub open spec fn char_cell_desc(x0: int, y0: int, glyph: Seq<u8>, i: int) -> Seq<PixelDesc> {
    let gx = i % 8;
    let gy = i / 8;
    let px = x0 + 2 * gx;
    let py = y0 + 2 * gy;
    if glyph_bit(glyph, gx, gy) {
        seq![
            (px, py, overlay_fg()),
            (px + 1, py, overlay_fg()),
            (px, py + 1, overlay_fg()),
            (px + 1, py + 1, overlay_fg()),
        ]
    } else {
        Seq::empty()
    }
}

/// The pixels of the first `i` cells of a glyph, in raster order.
pub open spec fn char_pixels_desc_upto(x0: int, y0: int, glyph: Seq<u8>, i: int) -> Seq<PixelDesc>
    decreases i,
{
    if i <= 0 {
        Seq::empty()
    } else {
        char_pixels_desc_upto(x0, y0, glyph, i - 1) + char_cell_desc(x0, y0, glyph, i - 1)
    }
}

/// All pixels of one rendered character at (x0, y0).
pub open spec fn char_pixels_desc(x0: int, y0: int, glyph: Seq<u8>) -> Seq<PixelDesc> {
    char_pixels_desc_upto(x0, y0, glyph, 64)
}

/// Renders one character: each set bit of its 8x8 bitmap becomes a 2x2
/// block of white pixels; a byte no font table covers renders as nothing.
pub fn render_char_at_position(x_pos: usize, y_pos: usize, c: u8) -> (pixels: Vec<Pixel>)
    requires
        x_pos + 16 <= u32::MAX,
        y_pos + 16 <= u32::MAX,
    ensures
        match glyph_of(c) {
            Some(glyph) => pixels_match(pixels@, char_pixels_desc(x_pos as int, y_pos as int, glyph)),
            None => pixels@.len() == 0,
        },
        c < 128 ==> glyph_of(c) is Some,
{
    let mut pixels: Vec<Pixel> = Vec::new();
    let looked_up = lookup_glyph(c);
    match looked_up {
        Some(glyph) => {
            let mut i: usize = 0;
            while i < 64
                invariant
                    i <= 64,
                    glyph@.len() == 8,
                    x_pos + 16 <= u32::MAX,
                    y_pos + 16 <= u32::MAX,
                    pixels_match(
                        pixels@,
                        char_pixels_desc_upto(x_pos as int, y_pos as int, glyph@, i as int),
                    ),
                decreases 64 - i,
            {
                let gx: usize = i % 8;
                let gy: usize = i / 8;
                let row = glyph[gy];
                let bit = (row >> (gx as u8)) & 1;
                let ghost desc_before = char_pixels_desc_upto(
                    x_pos as int,
                    y_pos as int,
                    glyph@,
                    i as int,
                );
                if bit == 1 {
                    let px = (x_pos + 2 * gx) as u32;
                    let py = (y_pos + 2 * gy) as u32;
                    pixels.push(Pixel::new(px, py, Rgba8::one()));
                    pixels.push(Pixel::new(px + 1, py, Rgba8::one()));
                    pixels.push(Pixel::new(px, py + 1, Rgba8::one()));
                    pixels.push(Pixel::new(px + 1, py + 1, Rgba8::one()));
                }
                proof {
                    assert(char_pixels_desc_upto(
                        x_pos as int,
                        y_pos as int,
                        glyph@,
                        i as int + 1,
                    ) == desc_before + char_cell_desc(x_pos as int, y_pos as int, glyph@, i as int));
                }
                i = i + 1;
            }
            pixels
        },
        None => pixels,
    }
}

/// The background rectangle of a text line: `rows` rows of `row_len`
/// opaque black pixels, row-major.
pub open spec fn bg_desc(x0: int, y0: int, row_len: int, rows: int) -> Seq<PixelDesc> {
    Seq::new((rows * row_len) as nat, |j: int| (x0 + j % row_len, y0 + j / row_len, overlay_bg()))
}

/// The glyph pixels of the first `k` characters of a line, each in its
/// 20-pixel cell.
pub open spec fn line_glyphs_desc_upto(x0: int, y0: int, line: Seq<u8>, k: int) -> Seq<PixelDesc>
    decreases k,
{
    if k <= 0 {
        Seq::empty()
    } else {
        line_glyphs_desc_upto(x0, y0, line, k - 1) + (match glyph_of(line[k - 1]) {
            Some(glyph) => char_pixels_desc(x0 + 20 * (k - 1) + 2, y0 + 2, glyph),
            None => Seq::empty(),
        })
    }
}

/// All pixels of one text line: its background first, then the glyphs.
pub open spec fn line_desc(x0: int, y0: int, line: Seq<u8>) -> Seq<PixelDesc> {
    bg_desc(x0, y0, 20 * line.len() as int, 20) + line_glyphs_desc_upto(x0, y0, line, line.len() as int)
}

/// Matching descriptions concatenate to a matching description.
proof fn lemma_pixels_match_concat(
    ps1: Seq<Pixel>,
    ds1: Seq<PixelDesc>,
    ps2: Seq<Pixel>,
    ds2: Seq<PixelDesc>,
)
    requires
        pixels_match(ps1, ds1),
        pixels_match(ps2, ds2),
    ensures
        pixels_match(ps1 + ps2, ds1 + ds2),
{
    assert forall|j: int| 0 <= j < (ps1 + ps2).len() implies pixel_matches(
        #[trigger] (ps1 + ps2)[j],
        (ds1 + ds2)[j],
    ) by {
        if j < ps1.len() {
            assert((ps1 + ps2)[j] == ps1[j] && (ds1 + ds2)[j] == ds1[j]);
        } else {
            assert((ps1 + ps2)[j] == ps2[j - ps1.len()] && (ds1 + ds2)[j] == ds2[j - ds1.len()]);
        }
    }
}

/// Row-major flattening: index `r * row_len + c` decomposes back into its
/// row and column.
proof fn lemma_raster_index(r: int, c: int, row_len: int)
    requires
        r >= 0,
        0 <= c < row_len,
    ensures
        (r * row_len + c) / row_len == r,
        (r * row_len + c) % row_len == c,
{
    assert((r * row_len + c) / row_len == r && (r * row_len + c) % row_len == c)
        by (nonlinear_arith)
        requires
            r >= 0,
            0 <= c < row_len,
    ;
}

/// Renders one line of text: a 20-pixel-high opaque black band as wide as
/// the line's cells, then each character's glyph in its cell.
pub fn render_string_line_at_position(x_pos: usize, y_pos: usize, line: &Vec<u8>) -> (pixels: Vec<
    Pixel,
>)
    requires
        x_pos + 20 * line@.len() <= u32::MAX,
        y_pos + 20 <= u32::MAX,
    ensures
        pixels_match(pixels@, line_desc(x_pos as int, y_pos as int, line@)),
{
    let count = line.len();
    let row_len: usize = 20 * count;
    let mut pixels: Vec<Pixel> = Vec::new();
    let mut y: usize = 0;
    while y < 20
        invariant
            y <= 20,
            row_len == 20 * line@.len(),
            x_pos + row_len <= u32::MAX,
            y_pos + 20 <= u32::MAX,
            pixels@.len() == y * row_len,
            pixels_match(pixels@, bg_desc(x_pos as int, y_pos as int, row_len as int, y as int)),
        decreases 20 - y,
    {
        let mut x: usize = 0;
        while x < row_len
            invariant
                x <= row_len,
                y < 20,
                row_len == 20 * line@.len(),
                x_pos + row_len <= u32::MAX,
                y_pos + 20 <= u32::MAX,
                pixels@.len() == y * row_len + x,
                forall|j: int|
                    0 <= j < pixels@.len() ==> pixel_matches(
                        #[trigger] pixels@[j],
                        (
                            x_pos + j % (row_len as int),
                            y_pos + j / (row_len as int),
                            overlay_bg(),
                        ),
                    ),
            decreases row_len - x,
        {
            proof {
                lemma_raster_index(y as int, x as int, row_len as int);
            }
            pixels.push(Pixel::new((x_pos + x) as u32, (y_pos + y) as u32, Rgba8::opaque_zero()));
            x = x + 1;
        }
        proof {
            assert(y as int * row_len as int + row_len as int == (y as int + 1) * row_len as int)
                by (nonlinear_arith);
        }
        y = y + 1;
    }
    proof {
        assert(pixels_match(pixels@, bg_desc(x_pos as int, y_pos as int, row_len as int, 20)));
    }
    let ghost bg_pixels = pixels@;
    let ghost bg_len = bg_pixels.len() as int;
    let mut k: usize = 0;
    while k < count
        invariant
            k <= count,
            count == line@.len(),
            row_len == 20 * count,
            x_pos + row_len <= u32::MAX,
            y_pos + 20 <= u32::MAX,
            bg_len == bg_pixels.len(),
            pixels_match(bg_pixels, bg_desc(x_pos as int, y_pos as int, row_len as int, 20)),
            pixels@.len() >= bg_len,
            pixels@.take(bg_len) == bg_pixels,
            pixels_match(
                pixels@.skip(bg_len),
                line_glyphs_desc_upto(x_pos as int, y_pos as int, line@, k as int),
            ),
        decreases count - k,
    {
        proof {
            assert(20 * (k as int + 1) <= row_len as int) by (nonlinear_arith)
                requires
                    (k as int) < (count as int),
                    row_len == 20 * count,
            ;
        }
        let cx = x_pos + 20 * k + 2;
        let mut glyph_pixels = render_char_at_position(cx, y_pos + 2, line[k]);
        let ghost tail_before = pixels@.skip(bg_len);
        let ghost glyph_view = glyph_pixels@;
        pixels.append(&mut glyph_pixels);
        proof {
            assert(pixels@.take(bg_len) =~= bg_pixels);
            assert(pixels@.skip(bg_len) =~= tail_before + glyph_view);
            let ghost_desc = match glyph_of(line@[k as int]) {
                Some(glyph) => char_pixels_desc(
                    x_pos as int + 20 * (k as int) + 2,
                    y_pos as int + 2,
                    glyph,
                ),
                None => Seq::<PixelDesc>::empty(),
            };
            assert(pixels_match(glyph_view, ghost_desc));
            lemma_pixels_match_concat(
                tail_before,
                line_glyphs_desc_upto(x_pos as int, y_pos as int, line@, k as int),
                glyph_view,
                ghost_desc,
            );
        }
        k = k + 1;
    }
    proof {
        lemma_pixels_match_concat(
            bg_pixels,
            bg_desc(x_pos as int, y_pos as int, row_len as int, 20),
            pixels@.skip(bg_len),
            line_glyphs_desc_upto(x_pos as int, y_pos as int, line@, count as int),
        );
        assert(pixels@ =~= bg_pixels + pixels@.skip(bg_len));
    }
    pixels
}

/// The lines of a byte string, split on newline: the separator belongs to
/// no line, and an empty string is one empty line.
pub open spec fn split_lines(bytes: Seq<u8>) -> Seq<Seq<u8>>
    decreases bytes.len(),
{
    if bytes.len() == 0 {
        seq![Seq::empty()]
    } else if bytes[0] == 10 {
        seq![Seq::<u8>::empty()] + split_lines(bytes.drop_first())
    } else {
        let rest = split_lines(bytes.drop_first());
        seq![seq![bytes[0]] + rest[0]] + rest.drop_first()
    }
}

/// A split always yields at least one line.
proof fn lemma_split_lines_nonempty(bytes: Seq<u8>)
    ensures
        split_lines(bytes).len() >= 1,
    decreases bytes.len(),
{
    if bytes.len() > 0 && bytes[0] != 10 {
        lemma_split_lines_nonempty(bytes.drop_first());
    }
}

/// Splits a byte string into its lines.
fn split_into_lines(bytes: &Vec<u8>) -> (lines: Vec<Vec<u8>>)
    ensures
        lines@.len() == split_lines(bytes@).len(),
        forall|i: int| 0 <= i < lines@.len() ==> (#[trigger] lines@[i])@ == split_lines(bytes@)[i],
        lines@.len() <= bytes@.len() + 1,
        forall|i: int| 0 <= i < lines@.len() ==> (#[trigger] lines@[i])@.len() <= bytes@.len(),
{
    let n = bytes.len();
    let mut finished: Vec<Vec<u8>> = Vec::new();
    let mut cur: Vec<u8> = Vec::new();
    let mut k: usize = 0;
    proof {
        lemma_split_lines_nonempty(bytes@);
        assert(bytes@.skip(0) =~= bytes@);
        assert(views_of(finished@) + seq![cur@ + split_lines(bytes@.skip(0))[0]] + split_lines(
            bytes@.skip(0),
        ).drop_first() =~= split_lines(bytes@));
    }
    while k < n
        invariant
            k <= n,
            n == bytes@.len(),
            split_lines(bytes@.skip(k as int)).len() >= 1,
            views_of(finished@) + seq![cur@ + split_lines(bytes@.skip(k as int))[0]] + split_lines(
                bytes@.skip(k as int),
            ).drop_first() =~= split_lines(bytes@),
            finished@.len() <= k,
            cur@.len() <= k,
            forall|i: int| 0 <= i < finished@.len() ==> (#[trigger] finished@[i])@.len() <= n,
        decreases n - k,
    {
        let b = bytes[k];
        proof {
            assert(bytes@.skip(k as int).len() > 0);
            assert(bytes@.skip(k as int)[0] == bytes@[k as int]);
            assert(bytes@.skip(k as int).drop_first() =~= bytes@.skip(k as int + 1));
            lemma_split_lines_nonempty(bytes@.skip(k as int + 1));
        }
        if b == 10 {
            let ghost finished_before = finished@;
            let ghost cur_before = cur@;
            let done = cur;
            cur = Vec::new();
            finished.push(done);
            proof {
                assert(views_of(finished@) =~= views_of(finished_before).push(cur_before));
                assert(split_lines(bytes@.skip(k as int)) =~= seq![Seq::<u8>::empty()]
                    + split_lines(bytes@.skip(k as int + 1)));
                assert(views_of(finished@) + seq![cur@ + split_lines(bytes@.skip(k as int + 1))[0]]
                    + split_lines(bytes@.skip(k as int + 1)).drop_first() =~= views_of(
                    finished_before,
                ) + seq![cur_before + split_lines(bytes@.skip(k as int))[0]] + split_lines(
                    bytes@.skip(k as int),
                ).drop_first());
            }
        } else {
            let ghost cur_before = cur@;
            cur.push(b);
            proof {
                let rest = split_lines(bytes@.skip(k as int + 1));
                assert(split_lines(bytes@.skip(k as int)) =~= seq![seq![bytes@[k as int]] + rest[0]]
                    + rest.drop_first());
                assert(cur@ + rest[0] =~= cur_before + split_lines(bytes@.skip(k as int))[0]);
                assert(views_of(finished@) + seq![cur@ + rest[0]] + rest.drop_first() =~= views_of(
                    finished@,
                ) + seq![cur_before + split_lines(bytes@.skip(k as int))[0]] + split_lines(
                    bytes@.skip(k as int),
                ).drop_first());
            }
        }
        k = k + 1;
    }
    proof {
        assert(bytes@.skip(n as int) =~= Seq::<u8>::empty());
        assert(split_lines(Seq::<u8>::empty()) =~= seq![Seq::<u8>::empty()]);
        assert(cur@ + split_lines(bytes@.skip(n as int))[0] =~= cur@);
    }
    let ghost finished_before = finished@;
    let ghost cur_view = cur@;
    finished.push(cur);
    proof {
        assert(views_of(finished@) =~= views_of(finished_before).push(cur_view));
        assert(views_of(finished@) =~= split_lines(bytes@));
        assert(forall|i: int|
            0 <= i < finished@.len() ==> (#[trigger] finished@[i])@ == views_of(finished@)[i]);
    }
    finished
}

/// The views of a vector of byte vectors.
pub open spec fn views_of(lines: Seq<Vec<u8>>) -> Seq<Seq<u8>> {
    Seq::new(lines.len(), |i: int| lines[i]@)
}

/// The pixels of the first `k` lines of the overlay, each line 20 pixels
/// below the one before.
pub open spec fn text_desc_upto(x0: int, y0: int, lines: Seq<Seq<u8>>, k: int) -> Seq<PixelDesc>
    decreases k,
{
    if k <= 0 {
        Seq::empty()
    } else {
        text_desc_upto(x0, y0, lines, k - 1) + line_desc(x0, y0 + 20 * (k - 1), lines[k - 1])
    }
}

/// All pixels of the rendered overlay text.
pub open spec fn text_desc(x0: int, y0: int, lines: Seq<Seq<u8>>) -> Seq<PixelDesc> {
    text_desc_upto(x0, y0, lines, lines.len() as int)
}

/// Every pixel of one rendered character stays inside its 16-pixel cell
/// and is white.
proof fn lemma_char_desc_in_cell(x0: int, y0: int, glyph: Seq<u8>, i: int)
    requires
        0 <= i <= 64,
    ensures
        forall|j: int|
            0 <= j < char_pixels_desc_upto(x0, y0, glyph, i).len() ==> {
                let d = #[trigger] char_pixels_desc_upto(x0, y0, glyph, i)[j];
                x0 <= d.0 < x0 + 16 && y0 <= d.1 < y0 + 16 && d.2 == overlay_fg()
            },
    decreases i,
{
    if i > 0 {
        lemma_char_desc_in_cell(x0, y0, glyph, i - 1);
        let prefix = char_pixels_desc_upto(x0, y0, glyph, i - 1);
        let cell = char_cell_desc(x0, y0, glyph, i - 1);
        assert(0 <= (i - 1) % 8 < 8 && 0 <= (i - 1) / 8 < 8);
        assert forall|j: int| 0 <= j < char_pixels_desc_upto(x0, y0, glyph, i).len() implies {
            let d = #[trigger] char_pixels_desc_upto(x0, y0, glyph, i)[j];
            x0 <= d.0 < x0 + 16 && y0 <= d.1 < y0 + 16 && d.2 == overlay_fg()
        } by {
            if j < prefix.len() {
                assert(char_pixels_desc_upto(x0, y0, glyph, i)[j] == prefix[j]);
            } else {
                assert(char_pixels_desc_upto(x0, y0, glyph, i)[j] == cell[j - prefix.len()]);
            }
        }
    }
}

/// Every pixel of one rendered line stays inside the line's band: at most
/// 20 pixels high and as wide as the line's cells.
proof fn lemma_line_desc_in_band(x0: int, y0: int, line: Seq<u8>)
    ensures
        forall|j: int|
            0 <= j < line_desc(x0, y0, line).len() ==> {
                let d = #[trigger] line_desc(x0, y0, line)[j];
                x0 <= d.0 < x0 + 20 * line.len() && y0 <= d.1 < y0 + 20
            },
{
    let bg = bg_desc(x0, y0, 20 * line.len() as int, 20);
    let row_len = 20 * line.len() as int;
    assert(forall|j: int|
        0 <= j < bg.len() ==> {
            let d = #[trigger] bg[j];
            x0 <= d.0 < x0 + row_len && y0 <= d.1 < y0 + 20
        }) by {
        assert forall|j: int| 0 <= j < bg.len() implies {
            let d = #[trigger] bg[j];
            x0 <= d.0 < x0 + row_len && y0 <= d.1 < y0 + 20
        } by {
            lemma_raster_div_bound(j, row_len, 20);
        }
    }
    lemma_line_glyphs_in_band(x0, y0, line, line.len() as int);
}

/// Every glyph pixel of the first `k` characters stays inside the band
/// and is white.
proof fn lemma_line_glyphs_in_band(x0: int, y0: int, line: Seq<u8>, k: int)
    requires
        0 <= k <= line.len(),
    ensures
        forall|j: int|
            0 <= j < line_glyphs_desc_upto(x0, y0, line, k).len() ==> {
                let d = #[trigger] line_glyphs_desc_upto(x0, y0, line, k)[j];
                x0 <= d.0 < x0 + 20 * line.len() && y0 <= d.1 < y0 + 20 && d.2 == overlay_fg()
            },
    decreases k,
{
    if k > 0 {
        lemma_line_glyphs_in_band(x0, y0, line, k - 1);
        let prefix = line_glyphs_desc_upto(x0, y0, line, k - 1);
        let cell = match glyph_of(line[k - 1]) {
            Some(glyph) => char_pixels_desc(x0 + 20 * (k - 1) + 2, y0 + 2, glyph),
            None => Seq::<PixelDesc>::empty(),
        };
        match glyph_of(line[k - 1]) {
            Some(glyph) => {
                lemma_char_desc_in_cell(x0 + 20 * (k - 1) + 2, y0 + 2, glyph, 64);
            },
            None => {},
        }
        assert(20 * (k - 1) + 2 + 16 <= 20 * line.len()) by (nonlinear_arith)
            requires
                1 <= k <= line.len(),
        ;
        assert forall|j: int| 0 <= j < line_glyphs_desc_upto(x0, y0, line, k).len() implies {
            let d = #[trigger] line_glyphs_desc_upto(x0, y0, line, k)[j];
            x0 <= d.0 < x0 + 20 * line.len() && y0 <= d.1 < y0 + 20 && d.2 == overlay_fg()
        } by {
            if j < prefix.len() {
                assert(line_glyphs_desc_upto(x0, y0, line, k)[j] == prefix[j]);
            } else {
                assert(line_glyphs_desc_upto(x0, y0, line, k)[j] == cell[j - prefix.len()]);
            }
        }
    }
}

/// A raster index below `rows * row_len` names a row below `rows`.
proof fn lemma_raster_div_bound(j: int, row_len: int, rows: int)
    requires
        rows >= 0,
        0 <= j < rows * row_len,
    ensures
        0 <= j % row_len < row_len,
        0 <= j / row_len < rows,
{
    assert(row_len > 0) by (nonlinear_arith)
        requires
            rows >= 0,
            0 <= j < rows * row_len,
    ;
    assert(0 <= j % row_len < row_len && 0 <= j / row_len < rows) by (nonlinear_arith)
        requires
            row_len > 0,
            0 <= j < rows * row_len,
    ;
}

/// The overlay stays inside its block: every pixel of the rendered text
/// lies in the rectangle spanned by the longest line and the stack of
/// line bands, so the overlay never scribbles over the rest of the image.
pub proof fn lemma_text_desc_in_block(x0: int, y0: int, lines: Seq<Seq<u8>>, max_len: int)
    requires
        forall|k: int| 0 <= k < lines.len() ==> (#[trigger] lines[k]).len() <= max_len,
    ensures
        forall|j: int|
            0 <= j < text_desc(x0, y0, lines).len() ==> {
                let d = #[trigger] text_desc(x0, y0, lines)[j];
                x0 <= d.0 < x0 + 20 * max_len && y0 <= d.1 < y0 + 20 * lines.len()
            },
{
    lemma_text_desc_upto_in_block(x0, y0, lines, max_len, lines.len() as int);
}

/// The first `k` lines stay inside the block.
proof fn lemma_text_desc_upto_in_block(
    x0: int,
    y0: int,
    lines: Seq<Seq<u8>>,
    max_len: int,
    k: int,
)
    requires
        0 <= k <= lines.len(),
        forall|kk: int| 0 <= kk < lines.len() ==> (#[trigger] lines[kk]).len() <= max_len,
    ensures
        forall|j: int|
            0 <= j < text_desc_upto(x0, y0, lines, k).len() ==> {
                let d = #[trigger] text_desc_upto(x0, y0, lines, k)[j];
                x0 <= d.0 < x0 + 20 * max_len && y0 <= d.1 < y0 + 20 * k
            },
    decreases k,
{
    if k > 0 {
        lemma_text_desc_upto_in_block(x0, y0, lines, max_len, k - 1);
        lemma_line_desc_in_band(x0, y0 + 20 * (k - 1), lines[k - 1]);
        assert(20 * lines[k - 1].len() <= 20 * max_len) by (nonlinear_arith)
            requires
                lines[k - 1].len() <= max_len,
        ;
        let prefix = text_desc_upto(x0, y0, lines, k - 1);
        let band = line_desc(x0, y0 + 20 * (k - 1), lines[k - 1]);
        assert forall|j: int| 0 <= j < text_desc_upto(x0, y0, lines, k).len() implies {
            let d = #[trigger] text_desc_upto(x0, y0, lines, k)[j];
            x0 <= d.0 < x0 + 20 * max_len && y0 <= d.1 < y0 + 20 * k
        } by {
            if j < prefix.len() {
                assert(text_desc_upto(x0, y0, lines, k)[j] == prefix[j]);
            } else {
                assert(text_desc_upto(x0, y0, lines, k)[j] == band[j - prefix.len()]);
            }
        }
    }
}

/// Does the doubled glyph of some character of the line light pixel
/// (px, py)?  The glyph of cell `k` sits two pixels inside its cell, and
/// each set bit covers a 2x2 block.
pub open spec fn char_lit(x0: int, y0: int, glyph: Seq<u8>, px: int, py: int) -> bool {
    exists|gx: int, gy: int|
        0 <= gx < 8 && 0 <= gy < 8 && #[trigger] glyph_bit(glyph, gx, gy) && x0 + 2 * gx <= px
            <= x0 + 2 * gx + 1 && y0 + 2 * gy <= py <= y0 + 2 * gy + 1
}

/// Does any character of the line light pixel (px, py)?
pub open spec fn line_lit(x0: int, y0: int, line: Seq<u8>, px: int, py: int) -> bool {
    exists|k: int|
        0 <= k < line.len() && match #[trigger] glyph_of(line[k]) {
            Some(glyph) => char_lit(x0 + 20 * k + 2, y0 + 2, glyph, px, py),
            None => false,
        }
}

/// Every pixel a character emits sits on a lit 2x2 block of its glyph.
proof fn lemma_char_desc_entries_lit(x0: int, y0: int, glyph: Seq<u8>, i: int)
    requires
        0 <= i <= 64,
    ensures
        forall|j: int|
            0 <= j < char_pixels_desc_upto(x0, y0, glyph, i).len() ==> {
                let d = #[trigger] char_pixels_desc_upto(x0, y0, glyph, i)[j];
                char_lit(x0, y0, glyph, d.0, d.1)
            },
    decreases i,
{
    if i > 0 {
        lemma_char_desc_entries_lit(x0, y0, glyph, i - 1);
        let prefix = char_pixels_desc_upto(x0, y0, glyph, i - 1);
        let cell = char_cell_desc(x0, y0, glyph, i - 1);
        let gx = (i - 1) % 8;
        let gy = (i - 1) / 8;
        assert(0 <= gx < 8 && 0 <= gy < 8);
        assert forall|j: int| 0 <= j < char_pixels_desc_upto(x0, y0, glyph, i).len() implies {
            let d = #[trigger] char_pixels_desc_upto(x0, y0, glyph, i)[j];
            char_lit(x0, y0, glyph, d.0, d.1)
        } by {
            if j < prefix.len() {
                assert(char_pixels_desc_upto(x0, y0, glyph, i)[j] == prefix[j]);
            } else {
                let d = cell[j - prefix.len()];
                assert(char_pixels_desc_upto(x0, y0, glyph, i)[j] == d);
                assert(glyph_bit(glyph, gx, gy));
                assert(x0 + 2 * gx <= d.0 <= x0 + 2 * gx + 1 && y0 + 2 * gy <= d.1 <= y0 + 2 * gy
                    + 1);
            }
        }
    }
}

/// A lit glyph position shows up among the character's emitted pixels.
proof fn lemma_char_lit_has_entry(x0: int, y0: int, glyph: Seq<u8>, px: int, py: int, i: int)
    requires
        char_lit(x0, y0, glyph, px, py),
        ({
            let (gx, gy) = choose|gx: int, gy: int|
                0 <= gx < 8 && 0 <= gy < 8 && #[trigger] glyph_bit(glyph, gx, gy) && x0 + 2 * gx
                    <= px <= x0 + 2 * gx + 1 && y0 + 2 * gy <= py <= y0 + 2 * gy + 1;
            gy * 8 + gx < i <= 64
        }),
    ensures
        exists|j: int|
            0 <= j < char_pixels_desc_upto(x0, y0, glyph, i).len() && (
            #[trigger] char_pixels_desc_upto(x0, y0, glyph, i)[j]).0 == px
                && char_pixels_desc_upto(x0, y0, glyph, i)[j].1 == py,
    decreases i,
{
    let (gx, gy) = choose|gx: int, gy: int|
        0 <= gx < 8 && 0 <= gy < 8 && #[trigger] glyph_bit(glyph, gx, gy) && x0 + 2 * gx <= px
            <= x0 + 2 * gx + 1 && y0 + 2 * gy <= py <= y0 + 2 * gy + 1;
    let i0 = gy * 8 + gx;
    let prefix = char_pixels_desc_upto(x0, y0, glyph, i - 1);
    let cell = char_cell_desc(x0, y0, glyph, i - 1);
    if i - 1 == i0 {
        lemma_raster_index(gy, gx, 8);
        assert(gx == i0 % 8 && gy == i0 / 8);
        assert(glyph_bit(glyph, (i - 1) % 8, (i - 1) / 8));
        assert(cell.len() == 4);
        let jc = (py - (y0 + 2 * gy)) * 2 + (px - (x0 + 2 * gx));
        assert(0 <= jc < 4);
        assert(cell[jc].0 == px && cell[jc].1 == py);
        let j = prefix.len() as int + jc;
        assert(char_pixels_desc_upto(x0, y0, glyph, i)[j] == cell[jc]);
    } else {
        lemma_char_lit_has_entry(x0, y0, glyph, px, py, i - 1);
        let j = choose|j: int|
            0 <= j < prefix.len() && (#[trigger] prefix[j]).0 == px && prefix[j].1 == py;
        assert(char_pixels_desc_upto(x0, y0, glyph, i)[j] == prefix[j]);
    }
}

/// Every glyph pixel of the line lights some character's bitmap.
proof fn lemma_line_glyphs_entries_lit(x0: int, y0: int, line: Seq<u8>, k: int)
    requires
        0 <= k <= line.len(),
    ensures
        forall|j: int|
            0 <= j < line_glyphs_desc_upto(x0, y0, line, k).len() ==> {
                let d = #[trigger] line_glyphs_desc_upto(x0, y0, line, k)[j];
                line_lit(x0, y0, line, d.0, d.1)
            },
    decreases k,
{
    if k > 0 {
        lemma_line_glyphs_entries_lit(x0, y0, line, k - 1);
        let prefix = line_glyphs_desc_upto(x0, y0, line, k - 1);
        let cell = match glyph_of(line[k - 1]) {
            Some(glyph) => char_pixels_desc(x0 + 20 * (k - 1) + 2, y0 + 2, glyph),
            None => Seq::<PixelDesc>::empty(),
        };
        match glyph_of(line[k - 1]) {
            Some(glyph) => {
                lemma_char_desc_entries_lit(x0 + 20 * (k - 1) + 2, y0 + 2, glyph, 64);
            },
            None => {},
        }
        assert forall|j: int| 0 <= j < line_glyphs_desc_upto(x0, y0, line, k).len() implies {
            let d = #[trigger] line_glyphs_desc_upto(x0, y0, line, k)[j];
            line_lit(x0, y0, line, d.0, d.1)
        } by {
            if j < prefix.len() {
                assert(line_glyphs_desc_upto(x0, y0, line, k)[j] == prefix[j]);
            } else {
                let d = cell[j - prefix.len()];
                assert(line_glyphs_desc_upto(x0, y0, line, k)[j] == d);
                match glyph_of(line[k - 1]) {
                    Some(glyph) => {
                        assert(char_lit(x0 + 20 * (k - 1) + 2, y0 + 2, glyph, d.0, d.1));
                    },
                    None => {},
                }
            }
        }
    }
}

/// A position some character lights shows up among the line's glyph
/// pixels.
proof fn lemma_line_lit_has_entry(x0: int, y0: int, line: Seq<u8>, px: int, py: int, k: int)
    requires
        line_lit(x0, y0, line, px, py),
        ({
            let kw = choose|kw: int|
                0 <= kw < line.len() && match #[trigger] glyph_of(line[kw]) {
                    Some(glyph) => char_lit(x0 + 20 * kw + 2, y0 + 2, glyph, px, py),
                    None => false,
                };
            kw < k <= line.len()
        }),
    ensures
        exists|j: int|
            0 <= j < line_glyphs_desc_upto(x0, y0, line, k).len() && (
            #[trigger] line_glyphs_desc_upto(x0, y0, line, k)[j]).0 == px
                && line_glyphs_desc_upto(x0, y0, line, k)[j].1 == py,
    decreases k,
{
    let kw = choose|kw: int|
        0 <= kw < line.len() && match #[trigger] glyph_of(line[kw]) {
            Some(glyph) => char_lit(x0 + 20 * kw + 2, y0 + 2, glyph, px, py),
            None => false,
        };
    let prefix = line_glyphs_desc_upto(x0, y0, line, k - 1);
    if k - 1 == kw {
        match glyph_of(line[kw]) {
            Some(glyph) => {
                let cx = x0 + 20 * kw + 2;
                let cy = y0 + 2;
                let (gx, gy) = choose|gx: int, gy: int|
                    0 <= gx < 8 && 0 <= gy < 8 && #[trigger] glyph_bit(glyph, gx, gy) && cx + 2
                        * gx <= px <= cx + 2 * gx + 1 && cy + 2 * gy <= py <= cy + 2 * gy + 1;
                assert(gy * 8 + gx < 64);
                lemma_char_lit_has_entry(cx, cy, glyph, px, py, 64);
                let cell = char_pixels_desc(cx, cy, glyph);
                let jc = choose|jc: int|
                    0 <= jc < cell.len() && (#[trigger] cell[jc]).0 == px && cell[jc].1 == py;
                let j = prefix.len() as int + jc;
                assert(line_glyphs_desc_upto(x0, y0, line, k)[j] == cell[jc]);
            },
            None => {
                assert(false);
            },
        }
    } else {
        lemma_line_lit_has_entry(x0, y0, line, px, py, k - 1);
        let j = choose|j: int|
            0 <= j < prefix.len() && (#[trigger] prefix[j]).0 == px && prefix[j].1 == py;
        assert(line_glyphs_desc_upto(x0, y0, line, k)[j] == prefix[j]);
    }
}

/// The overlay law for one line: replaying the batch in order leaves every
/// position of the band holding white where a glyph lights it and the
/// black background everywhere else, because the batch's last write at a
/// glyph position is always a glyph pixel.
pub proof fn lemma_line_overlay_visible(
    ps: Seq<Pixel>,
    x0: int,
    y0: int,
    line: Seq<u8>,
    px: int,
    py: int,
)
    requires
        pixels_match(ps, line_desc(x0, y0, line)),
        x0 <= px < x0 + 20 * line.len(),
        y0 <= py < y0 + 20,
    ensures
        0 <= crate::pixel::last_update_at(ps, px, py) < ps.len(),
        ps[crate::pixel::last_update_at(ps, px, py)].spec_color() == if line_lit(
            x0,
            y0,
            line,
            px,
            py,
        ) {
            overlay_fg()
        } else {
            overlay_bg()
        },
{
    let ds = line_desc(x0, y0, line);
    let row_len = 20 * line.len() as int;
    let bg = bg_desc(x0, y0, row_len, 20);
    let glyphs = line_glyphs_desc_upto(x0, y0, line, line.len() as int);
    assert(line.len() > 0);
    assert(row_len > 0);
    assert(bg.len() == 20 * row_len);
    let j0 = (py - y0) * row_len + (px - x0);
    lemma_raster_index(py - y0, px - x0, row_len);
    assert((py - y0) * row_len + row_len <= 20 * row_len) by (nonlinear_arith)
        requires
            py - y0 < 20,
            row_len > 0,
    ;
    assert(0 <= j0 < bg.len());
    assert(bg[j0].0 == px && bg[j0].1 == py && bg[j0].2 == overlay_bg());
    assert(ds[j0] == bg[j0]);
    assert(ps[j0].spec_x() == px && ps[j0].spec_y() == py);
    crate::pixel::lemma_last_update_at_ge(ps, px, py, j0);
    crate::pixel::lemma_last_update_at(ps, px, py);
    let last = crate::pixel::last_update_at(ps, px, py);
    assert(0 <= last < ps.len());
    assert(ps[last].spec_x() == px && ps[last].spec_y() == py);
    assert(ds[last].0 == px && ds[last].1 == py);
    lemma_line_glyphs_entries_lit(x0, y0, line, line.len() as int);
    lemma_line_glyphs_in_band(x0, y0, line, line.len() as int);
    if line_lit(x0, y0, line, px, py) {
        lemma_line_lit_has_entry(x0, y0, line, px, py, line.len() as int);
        let jg = choose|jg: int|
            0 <= jg < glyphs.len() && (#[trigger] glyphs[jg]).0 == px && glyphs[jg].1 == py;
        let j1 = bg.len() as int + jg;
        assert(ds[j1] == glyphs[jg]);
        assert(ps[j1].spec_x() == px && ps[j1].spec_y() == py);
        crate::pixel::lemma_last_update_at_ge(ps, px, py, j1);
        assert(last >= bg.len());
        assert(ds[last] == glyphs[last - bg.len()]);
        assert(ds[last].2 == overlay_fg());
        assert(ps[last].spec_color() == overlay_fg());
    } else {
        if last >= bg.len() {
            assert(ds[last] == glyphs[last - bg.len()]);
            assert(line_lit(x0, y0, line, px, py));
            assert(false);
        }
        assert(ds[last] == bg[last]);
        assert(bg[last].0 == px && bg[last].1 == py);
        assert(bg[last].2 == overlay_bg());
        assert(ps[last].spec_color() == overlay_bg());
    }
}

/// The end-to-end overlay law: replay a rendered line into an RGBA8
/// framebuffer and the bytes of any cell of its band show white where the
/// text lights it and the black background elsewhere.
pub proof fn lemma_line_overlay_on_frame(
    frame: Seq<u8>,
    width: int,
    ps: Seq<Pixel>,
    x0: int,
    y0: int,
    line: Seq<u8>,
    px: int,
    py: int,
)
    requires
        pixels_match(ps, line_desc(x0, y0, line)),
        0 <= x0,
        0 <= y0,
        width > 0,
        x0 + 20 * line.len() <= width,
        x0 <= px < x0 + 20 * line.len(),
        y0 <= py < y0 + 20,
        crate::pixel::rgba_offset(width, px, py) + 4 <= frame.len(),
    ensures
        ({
            let out = crate::framebuffer::apply_batch_spec(frame, width, ps);
            let off = crate::pixel::rgba_offset(width, px, py);
            let c = if line_lit(x0, y0, line, px, py) {
                overlay_fg()
            } else {
                overlay_bg()
            };
            out[off] == c.r && out[off + 1] == c.g && out[off + 2] == c.b && out[off + 3] == c.a
        }),
{
    lemma_line_desc_in_band(x0, y0, line);
    assert forall|k: int| 0 <= k < ps.len() implies (#[trigger] ps[k]).spec_x() < width by {
        assert(ps[k].spec_x() == line_desc(x0, y0, line)[k].0);
    }
    lemma_line_overlay_visible(ps, x0, y0, line, px, py);
    crate::framebuffer::lemma_apply_batch_last_write(frame, width, ps, px, py);
}

/// A match against a concatenated description splits into matches of the
/// two parts.
proof fn lemma_pixels_match_split(ps: Seq<Pixel>, ds1: Seq<PixelDesc>, ds2: Seq<PixelDesc>)
    requires
        pixels_match(ps, ds1 + ds2),
    ensures
        pixels_match(ps.take(ds1.len() as int), ds1),
        pixels_match(ps.skip(ds1.len() as int), ds2),
{
    let n1 = ds1.len() as int;
    assert forall|j: int| 0 <= j < ps.take(n1).len() implies pixel_matches(
        #[trigger] ps.take(n1)[j],
        ds1[j],
    ) by {
        assert(ps.take(n1)[j] == ps[j] && (ds1 + ds2)[j] == ds1[j]);
    }
    assert forall|j: int| 0 <= j < ps.skip(n1).len() implies pixel_matches(
        #[trigger] ps.skip(n1)[j],
        ds2[j],
    ) by {
        assert(ps.skip(n1)[j] == ps[j + n1] && (ds1 + ds2)[j + n1] == ds2[j]);
    }
}

/// The overlay law for the first `kk` lines of a text block, at a position
/// inside the band of line `(py - y0) / 20`.
proof fn lemma_text_overlay_visible_upto(
    ps: Seq<Pixel>,
    x0: int,
    y0: int,
    lines: Seq<Seq<u8>>,
    kk: int,
    px: int,
    py: int,
)
    requires
        0 <= kk <= lines.len(),
        pixels_match(ps, text_desc_upto(x0, y0, lines, kk)),
        y0 <= py < y0 + 20 * kk,
        ({
            let k = (py - y0) / 20;
            x0 <= px < x0 + 20 * lines[k].len()
        }),
    ensures
        ({
            let k = (py - y0) / 20;
            let last = crate::pixel::last_update_at(ps, px, py);
            &&& 0 <= last < ps.len()
            &&& ps[last].spec_color() == if line_lit(x0, y0 + 20 * k, lines[k], px, py) {
                overlay_fg()
            } else {
                overlay_bg()
            }
        }),
    decreases kk,
{
    let k = (py - y0) / 20;
    assert(0 <= k < kk) by (nonlinear_arith)
        requires
            y0 <= py < y0 + 20 * kk,
            k == (py - y0) / 20,
    ;
    let prefix_ds = text_desc_upto(x0, y0, lines, kk - 1);
    let band_ds = line_desc(x0, y0 + 20 * (kk - 1), lines[kk - 1]);
    lemma_pixels_match_split(ps, prefix_ds, band_ds);
    let a = ps.take(prefix_ds.len() as int);
    let b = ps.skip(prefix_ds.len() as int);
    assert(ps =~= a + b);
    crate::pixel::lemma_last_update_at_concat(a, b, px, py);
    crate::pixel::lemma_last_update_at(b, px, py);
    crate::pixel::lemma_last_update_at(a, px, py);
    lemma_line_desc_in_band(x0, y0 + 20 * (kk - 1), lines[kk - 1]);
    if k == kk - 1 {
        assert(y0 + 20 * k <= py < y0 + 20 * k + 20) by (nonlinear_arith)
            requires
                y0 <= py,
                k == (py - y0) / 20,
        ;
        lemma_line_overlay_visible(b, x0, y0 + 20 * (kk - 1), lines[kk - 1], px, py);
        assert(crate::pixel::last_update_at(b, px, py) >= 0);
        let last = crate::pixel::last_update_at(ps, px, py);
        assert(last == a.len() + crate::pixel::last_update_at(b, px, py));
        assert(ps[last] == b[crate::pixel::last_update_at(b, px, py)]);
    } else {
        // the last band lies strictly below py, so its pixels never hit
        // (px, py) and the earlier lines decide
        assert(py < y0 + 20 * (kk - 1)) by (nonlinear_arith)
            requires
                y0 <= py,
                k == (py - y0) / 20,
                k < kk - 1,
        ;
        if crate::pixel::last_update_at(b, px, py) >= 0 {
            let lb = crate::pixel::last_update_at(b, px, py);
            assert(b[lb].spec_y() == band_ds[lb].1);
            assert(band_ds[lb].1 >= y0 + 20 * (kk - 1));
            assert(false);
        }
        lemma_text_overlay_visible_upto(a, x0, y0, lines, kk - 1, px, py);
        let last = crate::pixel::last_update_at(ps, px, py);
        assert(last == crate::pixel::last_update_at(a, px, py));
        assert(ps[last] == a[last]);
    }
}

/// The overlay law for a whole text block: replay the rendered batch into
/// a buffer in order, and any position inside the band of its line shows
/// white where that line's text lights it and the black background
/// elsewhere.
pub proof fn lemma_text_overlay_visible(
    ps: Seq<Pixel>,
    x0: int,
    y0: int,
    lines: Seq<Seq<u8>>,
    px: int,
    py: int,
)
    requires
        pixels_match(ps, text_desc(x0, y0, lines)),
        y0 <= py < y0 + 20 * lines.len(),
        ({
            let k = (py - y0) / 20;
            x0 <= px < x0 + 20 * lines[k].len()
        }),
    ensures
        ({
            let k = (py - y0) / 20;
            let last = crate::pixel::last_update_at(ps, px, py);
            &&& 0 <= last < ps.len()
            &&& ps[last].spec_color() == if line_lit(x0, y0 + 20 * k, lines[k], px, py) {
                overlay_fg()
            } else {
                overlay_bg()
            }
        }),
{
    lemma_text_overlay_visible_upto(ps, x0, y0, lines, lines.len() as int, px, py);
}

/// Renders a block of ASCII text at a position: the string is split on
/// newlines and each line is rasterized 20 pixels below the previous one.
/// The batch holds each line's background before its glyphs, so replaying
/// it in order shows white glyphs on black bands.
pub fn render_string_at_position(x_pos: usize, y_pos: usize, string: &str) -> (batch:
    PixelBatchUpdate)
    requires
        string.is_ascii(),
        x_pos + 20 * (string@.len() + 1) <= u32::MAX,
        y_pos + 20 * (string@.len() + 1) <= u32::MAX,
    ensures
        pixels_match(
            batch.pixels@,
            text_desc(x_pos as int, y_pos as int, split_lines(string.spec_bytes())),
        ),
{
    proof {
        vstd::string::is_ascii_spec_bytes(string);
    }
    let byte_slice = string.as_bytes();
    let mut bytes: Vec<u8> = Vec::new();
    let mut bi: usize = 0;
    while bi < byte_slice.len()
        invariant
            bi <= byte_slice@.len(),
            bytes@ =~= byte_slice@.take(bi as int),
        decreases byte_slice@.len() - bi,
    {
        bytes.push(byte_slice[bi]);
        bi = bi + 1;
    }
    proof {
        assert(bytes@ =~= string.spec_bytes());
    }
    let lines = split_into_lines(&bytes);
    let ghost line_seq = split_lines(string.spec_bytes());
    let mut pixels: Vec<Pixel> = Vec::new();
    let count = lines.len();
    let mut li: usize = 0;
    while li < count
        invariant
            li <= count,
            count == lines@.len(),
            count == line_seq.len(),
            forall|i: int| 0 <= i < count ==> (#[trigger] lines@[i])@ == line_seq[i],
            forall|i: int| 0 <= i < count ==> (#[trigger] lines@[i])@.len() <= string.spec_bytes().len(),
            count <= string.spec_bytes().len() + 1,
            string.spec_bytes().len() == string@.len(),
            x_pos + 20 * (string@.len() + 1) <= u32::MAX,
            y_pos + 20 * (string@.len() + 1) <= u32::MAX,
            pixels_match(pixels@, text_desc_upto(x_pos as int, y_pos as int, line_seq, li as int)),
        decreases count - li,
    {
        proof {
            assert(20 * (li as int + 1) <= 20 * (string@.len() + 1)) by (nonlinear_arith)
                requires
                    li as int + 1 <= string@.len() + 1,
            ;
            assert(20 * lines@[li as int]@.len() <= 20 * string@.len()) by (nonlinear_arith)
                requires
                    lines@[li as int]@.len() <= string@.len(),
            ;
        }
        let ly = y_pos + 20 * li;
        let mut line_pixels = render_string_line_at_position(x_pos, ly, &lines[li]);
        let ghost pixels_before = pixels@;
        let ghost line_view = line_pixels@;
        pixels.append(&mut line_pixels);
        proof {
            lemma_pixels_match_concat(
                pixels_before,
                text_desc_upto(x_pos as int, y_pos as int, line_seq, li as int),
                line_view,
                line_desc(x_pos as int, y_pos as int + 20 * (li as int), line_seq[li as int]),
            );
        }
        li = li + 1;
    }
    PixelBatchUpdate { pixels }
}

} // verus!
