//! Pixels and the pixel grid.
//!
//! A pixel couples an image position with a quantized RGBA colour.  The
//! renderer accumulates radiance in floating point outside the library and
//! quantizes each channel to a byte before a pixel crosses into verified
//! code, so everything here is exact integer data.

use vstd::prelude::*;

verus! {

/// A colour quantized to one byte per channel, as the framebuffer and the
/// PNG encoder consume it.
#[derive(Clone, Copy, Debug, PartialEq, Eq, Structural)]
pub struct Rgba8 {
    pub r: u8,
    pub g: u8,
    pub b: u8,
    pub a: u8,
}

impl Rgba8 {
    /// Black, fully transparent: the colour a fresh pixel grid starts with.
    pub fn zero() -> (c: Rgba8)
        ensures
            c == (Rgba8 { r: 0, g: 0, b: 0, a: 0 }),
    {
        Rgba8 { r: 0, g: 0, b: 0, a: 0 }
    }

    /// Opaque white, the foreground colour of the text overlay.
    pub fn one() -> (c: Rgba8)
        ensures
            c == (Rgba8 { r: 255, g: 255, b: 255, a: 255 }),
    {
        Rgba8 { r: 255, g: 255, b: 255, a: 255 }
    }

    /// Opaque black, the background colour of the text overlay.
    pub fn opaque_zero() -> (c: Rgba8)
        ensures
            c == (Rgba8 { r: 0, g: 0, b: 0, a: 255 }),
    {
        Rgba8 { r: 0, g: 0, b: 0, a: 255 }
    }
}

/// One finished pixel: an (x, y) position in the image and its colour.
#[derive(Clone, Copy, Debug, PartialEq, Eq, Structural)]
pub struct Pixel {
    x: u32,
    y: u32,
    color: Rgba8,
}

impl Pixel {
    pub closed spec fn spec_x(self) -> u32 {
        self.x
    }

    pub closed spec fn spec_y(self) -> u32 {
        self.y
    }

    pub closed spec fn spec_color(self) -> Rgba8 {
        self.color
    }

    pub fn new(x: u32, y: u32, color: Rgba8) -> (p: Pixel)
        ensures
            p.spec_x() == x,
            p.spec_y() == y,
            p.spec_color() == color,
    {
        Pixel { x, y, color }
    }

    pub fn position(&self) -> (pos: (u32, u32))
        ensures
            pos.0 == self.spec_x(),
            pos.1 == self.spec_y(),
    {
        (self.x, self.y)
    }

    pub fn color(&self) -> (c: Rgba8)
        ensures
            c == self.spec_color(),
    {
        self.color
    }
}

/// A batch of pixels finished together by one tile worker, sent as one
/// message to the streaming consumers.
pub struct PixelBatchUpdate {
    pub pixels: Vec<Pixel>,
}

/// The whole image as rows of pixels, indexed `[y][x]`.
pub type PixelsData = Vec<Vec<Pixel>>;

/// A well-formed pixel grid: `height` rows of `width` pixels, and the pixel
/// stored at `[y][x]` carries position (x, y).
pub open spec fn pixel_grid_wf(grid: Seq<Vec<Pixel>>, width: int, height: int) -> bool {
    &&& grid.len() == height
    &&& forall|y: int| 0 <= y < height ==> (#[trigger] grid[y])@.len() == width
    &&& forall|y: int, x: int|
        0 <= y < height && 0 <= x < width ==> (#[trigger] grid[y]@[x]).spec_x() == x
            && grid[y]@[x].spec_y() == y
}

/// Builds a `width` by `height` grid where every pixel knows its own
/// position and starts out black.
pub fn make_empty_pixel_data(width: u32, height: u32) -> (out: PixelsData)
    ensures
        pixel_grid_wf(out@, width as int, height as int),
        forall|y: int, x: int|
            0 <= y < height && 0 <= x < width ==> (#[trigger] out@[y]@[x]).spec_color()
                == (Rgba8 { r: 0, g: 0, b: 0, a: 0 }),
{
    let mut out: PixelsData = Vec::new();
    let mut y: u32 = 0;
    while y < height
        invariant
            y <= height,
            out@.len() == y,
            forall|yy: int| 0 <= yy < y ==> (#[trigger] out@[yy]).len() == width,
            forall|yy: int, x: int|
                0 <= yy < y && 0 <= x < width ==> (#[trigger] out@[yy]@[x]).spec_x() == x
                    && out@[yy]@[x].spec_y() == yy && out@[yy]@[x].spec_color()
                    == (Rgba8 { r: 0, g: 0, b: 0, a: 0 }),
        decreases height - y,
    {
        let mut row: Vec<Pixel> = Vec::new();
        let mut x: u32 = 0;
        while x < width
            invariant
                x <= width,
                row@.len() == x,
                forall|xx: int|
                    0 <= xx < x ==> (#[trigger] row@[xx]).spec_x() == xx && row@[xx].spec_y() == y
                        && row@[xx].spec_color() == (Rgba8 { r: 0, g: 0, b: 0, a: 0 }),
            decreases width - x,
        {
            row.push(Pixel::new(x, y, Rgba8::zero()));
            x = x + 1;
        }
        out.push(row);
        y = y + 1;
    }
    out
}

/// Byte offset of pixel (x, y) in a row-major RGBA8 buffer of the given
/// width, as the window surface and the PNG encoder lay it out.
pub open spec fn rgba_offset(width: int, x: int, y: int) -> int {
    (y * width + x) * 4
}

/// Flattens a well-formed pixel grid into the row-major RGBA8 byte buffer
/// that an image encoder consumes.
pub fn pixel_grid_to_rgba_bytes(grid: &PixelsData, width: u32, height: u32) -> (bytes: Vec<u8>)
    requires
        pixel_grid_wf(grid@, width as int, height as int),
        width as int * height as int * 4 <= usize::MAX,
    ensures
        bytes@.len() == width as int * height as int * 4,
        forall|y: int, x: int|
            0 <= y < height && 0 <= x < width ==> {
                let c = (#[trigger] grid@[y]@[x]).spec_color();
                let off = rgba_offset(width as int, x, y);
                bytes@[off] == c.r && bytes@[off + 1] == c.g && bytes@[off + 2] == c.b && bytes@[off
                    + 3] == c.a
            },
{
    let mut bytes: Vec<u8> = Vec::new();
    let mut y: u32 = 0;
    while y < height
        invariant
            y <= height,
            pixel_grid_wf(grid@, width as int, height as int),
            width as int * height as int * 4 <= usize::MAX,
            bytes@.len() == y as int * width as int * 4,
            forall|yy: int, x: int|
                0 <= yy < y && 0 <= x < width ==> {
                    let c = (#[trigger] grid@[yy]@[x]).spec_color();
                    let off = rgba_offset(width as int, x, yy);
                    bytes@[off] == c.r && bytes@[off + 1] == c.g && bytes@[off + 2] == c.b
                        && bytes@[off + 3] == c.a
                },
        decreases height - y,
    {
        proof {
            lemma_row_bound(width as int, height as int, y as int);
        }
        let row: &Vec<Pixel> = &grid[y as usize];
        let mut x: u32 = 0;
        while x < width
            invariant
                x <= width,
                y < height,
                pixel_grid_wf(grid@, width as int, height as int),
                width as int * height as int * 4 <= usize::MAX,
                row@ == grid@[y as int]@,
                bytes@.len() == y as int * width as int * 4 + x as int * 4,
                (y as int + 1) * width as int * 4 <= width as int * height as int * 4,
                forall|yy: int, xx: int|
                    0 <= yy < y && 0 <= xx < width ==> {
                        let c = (#[trigger] grid@[yy]@[xx]).spec_color();
                        let off = rgba_offset(width as int, xx, yy);
                        bytes@[off] == c.r && bytes@[off + 1] == c.g && bytes@[off + 2] == c.b
                            && bytes@[off + 3] == c.a
                    },
                forall|xx: int|
                    0 <= xx < x ==> {
                        let c = (#[trigger] grid@[y as int]@[xx]).spec_color();
                        let off = rgba_offset(width as int, xx, y as int);
                        bytes@[off] == c.r && bytes@[off + 1] == c.g && bytes@[off + 2] == c.b
                            && bytes@[off + 3] == c.a
                    },
            decreases width - x,
        {
            let c = row[x as usize].color();
            bytes.push(c.r);
            bytes.push(c.g);
            bytes.push(c.b);
            bytes.push(c.a);
            proof {
                assert forall|yy: int, xx: int| 0 <= yy < y && 0 <= xx < width implies rgba_offset(
                    width as int,
                    xx,
                    yy,
                ) + 4 <= y as int * width as int * 4 by {
                    lemma_offset_in_prefix(width as int, xx, yy, y as int);
                }
            }
            x = x + 1;
        }
        y = y + 1;
    }
    proof {
        assert(bytes@.len() == height as int * width as int * 4);
        assert(height as int * width as int * 4 == width as int * height as int * 4)
            by (nonlinear_arith);
    }
    bytes
}

/// A pixel of an earlier row sits strictly before the bytes of the current
/// row: its four bytes end at or before offset `y * width * 4`.
proof fn lemma_offset_in_prefix(width: int, xx: int, yy: int, y: int)
    requires
        0 <= yy < y,
        0 <= xx < width,
    ensures
        rgba_offset(width, xx, yy) + 4 <= y * width * 4,
{
    assert((yy * width + xx) * 4 + 4 <= y * width * 4) by (nonlinear_arith)
        requires
            0 <= yy < y,
            0 <= xx < width,
    ;
}

/// The index of the last update aimed at cell (x, y), or -1 when none
/// is.
pub open spec fn last_update_at(updates: Seq<Pixel>, x: int, y: int) -> int
    decreases updates.len(),
{
    if updates.len() == 0 {
        -1
    } else if updates.last().spec_x() == x && updates.last().spec_y() == y {
        updates.len() - 1
    } else {
        last_update_at(updates.drop_last(), x, y)
    }
}

/// `last_update_at` names a real update aimed at the cell whenever it is
/// not -1.
pub proof fn lemma_last_update_at(updates: Seq<Pixel>, x: int, y: int)
    ensures
        last_update_at(updates, x, y) >= 0 ==> {
            let k = last_update_at(updates, x, y);
            k < updates.len() && updates[k].spec_x() == x && updates[k].spec_y() == y
        },
    decreases updates.len(),
{
    if updates.len() > 0 && !(updates.last().spec_x() == x && updates.last().spec_y() == y) {
        lemma_last_update_at(updates.drop_last(), x, y);
        if last_update_at(updates.drop_last(), x, y) >= 0 {
            let k = last_update_at(updates.drop_last(), x, y);
            assert(updates.drop_last()[k] == updates[k]);
        }
    }
}

/// `last_update_at` comes at or after every update aimed at the cell.
pub proof fn lemma_last_update_at_ge(updates: Seq<Pixel>, x: int, y: int, j: int)
    requires
        0 <= j < updates.len(),
        updates[j].spec_x() == x,
        updates[j].spec_y() == y,
    ensures
        last_update_at(updates, x, y) >= j,
    decreases updates.len(),
{
    if !(updates.last().spec_x() == x && updates.last().spec_y() == y) {
        assert(j < updates.len() - 1);
        assert(updates.drop_last()[j] == updates[j]);
        lemma_last_update_at_ge(updates.drop_last(), x, y, j);
    }
}

/// The last update in a concatenation: the second run wins where it aims
/// at the cell at all, else the first run decides.
pub proof fn lemma_last_update_at_concat(a: Seq<Pixel>, b: Seq<Pixel>, x: int, y: int)
    ensures
        last_update_at(a + b, x, y) == if last_update_at(b, x, y) >= 0 {
            a.len() + last_update_at(b, x, y)
        } else {
            last_update_at(a, x, y)
        },
    decreases b.len(),
{
    lemma_last_update_at(b, x, y);
    if b.len() == 0 {
        assert(a + b =~= a);
    } else {
        assert((a + b).last() == b.last());
        assert((a + b).drop_last() =~= a + b.drop_last());
        if !(b.last().spec_x() == x && b.last().spec_y() == y) {
            lemma_last_update_at_concat(a, b.drop_last(), x, y);
        }
    }
}

/// Stores a batch of finished pixels into the grid, each into the cell its
/// own position names; where several updates aim at one cell, the last one
/// stays, and cells nothing aims at keep their pixel.  Updates aimed
/// outside the grid are ignored.
pub fn store_pixels(grid: &mut PixelsData, updates: &Vec<Pixel>)
    ensures
        final(grid)@.len() == old(grid)@.len(),
        forall|y: int|
            0 <= y < old(grid)@.len() ==> (#[trigger] final(grid)@[y])@.len()
                == old(grid)@[y]@.len(),
        forall|y: int, x: int|
            #![trigger old(grid)@[y]@[x]]
            0 <= y < old(grid)@.len() && 0 <= x < old(grid)@[y]@.len() ==> final(grid)@[y]@[x] == {
                let k = last_update_at(updates@, x, y);
                if k >= 0 {
                    updates@[k]
                } else {
                    old(grid)@[y]@[x]
                }
            },
{
    let ghost grid0 = grid@;
    let n = updates.len();
    let mut k: usize = 0;
    while k < n
        invariant
            k <= n,
            n == updates@.len(),
            grid@.len() == grid0.len(),
            forall|y: int|
                0 <= y < grid0.len() ==> (#[trigger] grid@[y])@.len() == grid0[y]@.len(),
            forall|y: int, x: int|
                0 <= y < grid0.len() && 0 <= x < grid0[y]@.len() ==> (#[trigger] grid@[y]@[x]) == {
                    let j = last_update_at(updates@.take(k as int), x, y);
                    if j >= 0 {
                        updates@[j]
                    } else {
                        grid0[y]@[x]
                    }
                },
        decreases n - k,
    {
        let p = updates[k];
        let (x, y) = p.position();
        if (y as usize) < grid.len() {
            let row_len = grid[y as usize].len();
            if (x as usize) < row_len {
                let ghost grid_before = grid@;
                grid[y as usize].set(x as usize, p);
                proof {
                    assert(grid@[y as int]@ =~= grid_before[y as int]@.update(x as int, p));
                    assert(forall|yy: int|
                        0 <= yy < grid0.len() && yy != y as int ==> grid@[yy] == grid_before[yy]);
                }
            }
        }
        proof {
            assert(updates@.take(k as int + 1).drop_last() =~= updates@.take(k as int));
            assert(updates@.take(k as int + 1).last() == updates@[k as int]);
            assert forall|y0: int, x0: int|
                0 <= y0 < grid0.len() && 0 <= x0 < grid0[y0]@.len() implies (#[trigger] grid@[y0]@[x0])
                == {
                let j = last_update_at(updates@.take(k as int + 1), x0, y0);
                if j >= 0 {
                    updates@[j]
                } else {
                    grid0[y0]@[x0]
                }
            } by {
                lemma_last_update_at(updates@.take(k as int), x0, y0);
            }
        }
        k = k + 1;
    }
    proof {
        assert(updates@.take(n as int) =~= updates@);
    }
}

/// The last full row must fit in the buffer: (y + 1) rows of bytes never
/// exceed the whole image's byte count.
proof fn lemma_row_bound(width: int, height: int, y: int)
    requires
        0 <= y < height,
        0 <= width,
    ensures
        (y + 1) * width * 4 <= width * height * 4,
        y * width * 4 + width * 4 == (y + 1) * width * 4,
{
    assert((y + 1) * width <= height * width) by (nonlinear_arith)
        requires
            0 <= y < height,
            0 <= width,
    ;
    assert(y * width * 4 + width * 4 == (y + 1) * width * 4) by (nonlinear_arith);
    assert(height * width * 4 == width * height * 4) by (nonlinear_arith);
}

} // verus!
