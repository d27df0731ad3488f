//! Tile partition of the image.
//!
//! The renderer splits the image into square chunks and hands each chunk to
//! a worker.  The partition must cover every pixel exactly once, or the
//! final grid would have holes or double-sampled cells; the lemma at the
//! bottom states that law.

use vstd::prelude::*;

verus! {

/// One tile of the image: the pixel block starting at (x, y), at most
/// `chunk_size` pixels wide and high (tiles at the right and bottom edges
/// are clipped to the image).
#[derive(Clone, Copy, Debug, PartialEq, Eq, Structural)]
pub struct PixelChunk {
    pub x: u32,
    pub y: u32,
    pub chunk_size: u32,
}

/// Number of chunks needed to cover `extent` pixels: `extent / size`
/// rounded up.
pub open spec fn chunk_count(extent: int, size: int) -> int {
    (extent + size - 1) / size
}

/// Does the (unclipped) chunk contain pixel (px, py)?
pub open spec fn chunk_contains(c: PixelChunk, px: int, py: int) -> bool {
    &&& c.x <= px < c.x + c.chunk_size
    &&& c.y <= py < c.y + c.chunk_size
}

/// The chunk list the renderer works through: one chunk per (column, row)
/// pair, columns outermost, each anchored at a multiple of the chunk size.
pub open spec fn chunk_list_wf(
    chunks: Seq<PixelChunk>,
    width: int,
    height: int,
    size: int,
) -> bool {
    let nx = chunk_count(width, size);
    let ny = chunk_count(height, size);
    &&& chunks.len() == nx * ny
    &&& forall|i: int|
        0 <= i < nx * ny ==> (#[trigger] chunks[i]) == (PixelChunk {
            x: ((i / ny) * size) as u32,
            y: ((i % ny) * size) as u32,
            chunk_size: size as u32,
        })
}

/// Partitions a `width` by `height` image into chunks of the given size,
/// column by column then row by row, exactly as `chunk_list_wf` lays them
/// out.
pub fn make_pixel_chunks(width: u32, height: u32, chunk_size: u32) -> (chunks: Vec<PixelChunk>)
    requires
        chunk_size > 0,
        width as int + chunk_size as int <= u32::MAX,
        height as int + chunk_size as int <= u32::MAX,
    ensures
        chunk_list_wf(chunks@, width as int, height as int, chunk_size as int),
{
    let nx: u32 = (width + chunk_size - 1) / chunk_size;
    let ny: u32 = (height + chunk_size - 1) / chunk_size;
    proof {
        lemma_chunk_count_bound(width as int, chunk_size as int);
        lemma_chunk_count_bound(height as int, chunk_size as int);
    }
    let mut chunks: Vec<PixelChunk> = Vec::new();
    let mut cx: u32 = 0;
    while cx < nx
        invariant
            cx <= nx,
            nx == chunk_count(width as int, chunk_size as int),
            ny == chunk_count(height as int, chunk_size as int),
            nx as int * chunk_size as int <= u32::MAX,
            ny as int * chunk_size as int <= u32::MAX,
            chunks@.len() == cx as int * ny as int,
            forall|i: int|
                0 <= i < chunks@.len() ==> (#[trigger] chunks@[i]) == (PixelChunk {
                    x: ((i / ny as int) * chunk_size as int) as u32,
                    y: ((i % ny as int) * chunk_size as int) as u32,
                    chunk_size: chunk_size,
                }),
        decreases nx - cx,
    {
        let mut cy: u32 = 0;
        while cy < ny
            invariant
                cx < nx,
                cy <= ny,
                nx == chunk_count(width as int, chunk_size as int),
                ny == chunk_count(height as int, chunk_size as int),
                nx as int * chunk_size as int <= u32::MAX,
                ny as int * chunk_size as int <= u32::MAX,
                chunks@.len() == cx as int * ny as int + cy as int,
                forall|i: int|
                    0 <= i < chunks@.len() ==> (#[trigger] chunks@[i]) == (PixelChunk {
                        x: ((i / ny as int) * chunk_size as int) as u32,
                        y: ((i % ny as int) * chunk_size as int) as u32,
                        chunk_size: chunk_size,
                    }),
            decreases ny - cy,
        {
            proof {
                lemma_mul_le(cx as int, nx as int, chunk_size as int);
                lemma_mul_le(cy as int, ny as int, chunk_size as int);
                lemma_flat_index(cx as int, cy as int, ny as int);
            }
            chunks.push(
                PixelChunk { x: cx * chunk_size, y: cy * chunk_size, chunk_size: chunk_size },
            );
            cy = cy + 1;
        }
        proof {
            assert(cx as int * ny as int + ny as int == (cx as int + 1) * ny as int)
                by (nonlinear_arith);
        }
        cx = cx + 1;
    }
    proof {
        assert(chunks@.len() == nx as int * ny as int);
    }
    chunks
}

/// `ceil(extent / size) * size` is at least `extent` and overshoots by less
/// than one chunk.
proof fn lemma_chunk_count_bound(extent: int, size: int)
    requires
        extent >= 0,
        size > 0,
    ensures
        chunk_count(extent, size) >= 0,
        chunk_count(extent, size) * size >= extent,
        chunk_count(extent, size) * size < extent + size,
        extent > 0 ==> (chunk_count(extent, size) - 1) * size < extent,
{
    let n = (extent + size - 1) / size;
    assert(n >= 0 && n * size >= extent && n * size < extent + size && (extent > 0 ==> (n - 1)
        * size < extent)) by (nonlinear_arith)
        requires
            extent >= 0,
            size > 0,
            n == (extent + size - 1) / size,
    ;
}

/// Multiplying both sides of `a <= b` by a nonnegative factor keeps the
/// order.
proof fn lemma_mul_le(a: int, b: int, f: int)
    requires
        a <= b,
        f >= 0,
    ensures
        a * f <= b * f,
{
    assert(a * f <= b * f) by (nonlinear_arith)
        requires
            a <= b,
            f >= 0,
    ;
}

/// Row-major flattening: index `cx * ny + cy` decomposes back into its
/// column and row.
proof fn lemma_flat_index(cx: int, cy: int, ny: int)
    requires
        cx >= 0,
        0 <= cy < ny,
    ensures
        (cx * ny + cy) / ny == cx,
        (cx * ny + cy) % ny == cy,
{
    assert((cx * ny + cy) / ny == cx && (cx * ny + cy) % ny == cy) by (nonlinear_arith)
        requires
            cx >= 0,
            0 <= cy < ny,
    ;
}

/// The pixels a worker samples for one chunk: the chunk's block clipped to
/// the image, row by row.
pub fn chunk_pixel_positions(chunk: &PixelChunk, width: u32, height: u32) -> (out: Vec<(u32, u32)>)
    requires
        chunk.chunk_size > 0,
        chunk.x < width,
        chunk.y < height,
        chunk.x + chunk.chunk_size <= u32::MAX,
        chunk.y + chunk.chunk_size <= u32::MAX,
    ensures
        forall|j: int|
            0 <= j < out@.len() ==> chunk_contains(
                *chunk,
                (#[trigger] out@[j]).0 as int,
                out@[j].1 as int,
            ) && out@[j].0 < width && out@[j].1 < height,
        forall|px: int, py: int|
            chunk_contains(*chunk, px, py) && 0 <= px < width && 0 <= py < height ==> exists|j: int|
                0 <= j < out@.len() && (#[trigger] out@[j]) == ((px as u32, py as u32)),
        forall|j1: int, j2: int|
            0 <= j1 < j2 < out@.len() ==> #[trigger] out@[j1] != #[trigger] out@[j2],
{
    let x_end: u32 = if chunk.x + chunk.chunk_size < width {
        chunk.x + chunk.chunk_size
    } else {
        width
    };
    let y_end: u32 = if chunk.y + chunk.chunk_size < height {
        chunk.y + chunk.chunk_size
    } else {
        height
    };
    let row_len: u32 = x_end - chunk.x;
    let mut out: Vec<(u32, u32)> = Vec::new();
    let mut y: u32 = chunk.y;
    while y < y_end
        invariant
            chunk.y <= y <= y_end,
            y_end <= height,
            x_end <= width,
            chunk.x < x_end <= chunk.x + chunk.chunk_size,
            y_end == if chunk.y + chunk.chunk_size < height {
                chunk.y + chunk.chunk_size as int
            } else {
                height as int
            },
            x_end == if chunk.x + chunk.chunk_size < width {
                chunk.x + chunk.chunk_size as int
            } else {
                width as int
            },
            row_len == x_end - chunk.x,
            out@.len() == (y - chunk.y) * row_len as int,
            forall|j: int|
                0 <= j < out@.len() ==> (#[trigger] out@[j]) == ((
                (chunk.x as int + j % row_len as int) as u32,
                (chunk.y as int + j / row_len as int) as u32,
            )),
        decreases y_end - y,
    {
        let mut x: u32 = chunk.x;
        while x < x_end
            invariant
                chunk.x <= x <= x_end,
                chunk.y <= y < y_end,
                y_end <= height,
                x_end <= width,
                chunk.x < x_end <= chunk.x + chunk.chunk_size,
                row_len == x_end - chunk.x,
                out@.len() == (y - chunk.y) * row_len as int + (x - chunk.x),
                forall|j: int|
                    0 <= j < out@.len() ==> (#[trigger] out@[j]) == ((
                    (chunk.x as int + j % row_len as int) as u32,
                    (chunk.y as int + j / row_len as int) as u32,
                )),
            decreases x_end - x,
        {
            proof {
                lemma_flat_index(y as int - chunk.y as int, x as int - chunk.x as int, row_len as int);
            }
            out.push((x, y));
            x = x + 1;
        }
        proof {
            assert((y - chunk.y) * row_len as int + row_len as int == (y + 1 - chunk.y) * row_len as int)
                by (nonlinear_arith);
        }
        y = y + 1;
    }
    proof {
        lemma_positions_complete(out@, *chunk, width as int, height as int, x_end as int, y_end as int, row_len as int);
    }
    out
}

/// Every pixel of the clipped block shows up in the enumerated list, and no
/// position repeats.
proof fn lemma_positions_complete(
    out: Seq<(u32, u32)>,
    chunk: PixelChunk,
    width: int,
    height: int,
    x_end: int,
    y_end: int,
    row_len: int,
)
    requires
        chunk.x + chunk.chunk_size <= u32::MAX,
        chunk.y + chunk.chunk_size <= u32::MAX,
        width <= u32::MAX,
        height <= u32::MAX,
        chunk.x < x_end <= chunk.x + chunk.chunk_size,
        chunk.y <= y_end <= chunk.y + chunk.chunk_size,
        x_end <= width,
        y_end <= height,
        x_end == if chunk.x + chunk.chunk_size < width {
            chunk.x + chunk.chunk_size as int
        } else {
            width
        },
        y_end == if chunk.y + chunk.chunk_size < height {
            chunk.y + chunk.chunk_size as int
        } else {
            height
        },
        row_len == x_end - chunk.x,
        out.len() == (y_end - chunk.y) * row_len,
        forall|j: int|
            0 <= j < out.len() ==> (#[trigger] out[j]) == ((
            (chunk.x + j % row_len) as u32,
            (chunk.y + j / row_len) as u32,
        )),
    ensures
        forall|j: int|
            0 <= j < out.len() ==> chunk_contains(
                chunk,
                (#[trigger] out[j]).0 as int,
                out[j].1 as int,
            ) && out[j].0 < width && out[j].1 < height,
        forall|px: int, py: int|
            chunk_contains(chunk, px, py) && 0 <= px < width && 0 <= py < height ==> exists|j: int|
                0 <= j < out.len() && (#[trigger] out[j]) == ((px as u32, py as u32)),
        forall|j1: int, j2: int| 0 <= j1 < j2 < out.len() ==> out[j1] != out[j2],
{
    assert forall|j: int|
        0 <= j < out.len() implies chunk_contains(
        chunk,
        (#[trigger] out[j]).0 as int,
        out[j].1 as int,
    ) && out[j].0 < width && out[j].1 < height by {
        lemma_div_bound(j, row_len, y_end - chunk.y);
        assert(out[j] == (((chunk.x + j % row_len) as u32, (chunk.y + j / row_len) as u32)));
        assert(chunk.x + j % row_len <= u32::MAX);
        assert(chunk.y + j / row_len <= u32::MAX);
    }
    assert forall|px: int, py: int|
        chunk_contains(chunk, px, py) && 0 <= px < width && 0 <= py < height implies exists|j: int|
        0 <= j < out.len() && (#[trigger] out[j]) == ((px as u32, py as u32)) by {
        let jw = (py - chunk.y) * row_len + (px - chunk.x);
        lemma_flat_index(py - chunk.y, px - chunk.x, row_len);
        lemma_mul_le(py - chunk.y, y_end - chunk.y - 1, row_len);
        assert((y_end - chunk.y - 1) * row_len + row_len == (y_end - chunk.y) * row_len)
            by (nonlinear_arith);
        assert(jw < out.len());
        assert(out[jw] == ((px as u32, py as u32)));
    }
    assert forall|j1: int, j2: int| 0 <= j1 < j2 < out.len() implies out[j1] != out[j2] by {
        let m1 = j1 % row_len;
        let d1 = j1 / row_len;
        let m2 = j2 % row_len;
        let d2 = j2 / row_len;
        lemma_div_bound(j1, row_len, y_end - chunk.y);
        lemma_div_bound(j2, row_len, y_end - chunk.y);
        assert(chunk.x + m1 <= u32::MAX && chunk.x + m2 <= u32::MAX);
        assert(chunk.y + d1 <= u32::MAX && chunk.y + d2 <= u32::MAX);
        if out[j1] == out[j2] {
            assert(m1 == m2 && d1 == d2);
            lemma_flat_unique(j1, j2, row_len);
        }
    }
}

/// A flat index below `rows * row_len` decomposes into a row below `rows`
/// and an in-range column.
proof fn lemma_div_bound(j: int, row_len: int, rows: int)
    requires
        row_len > 0,
        0 <= j < rows * row_len,
    ensures
        0 <= j / row_len < rows,
        0 <= j % row_len < row_len,
{
    assert(0 <= j / row_len < rows && 0 <= j % row_len < row_len) by (nonlinear_arith)
        requires
            row_len > 0,
            0 <= j < rows * row_len,
    ;
}

/// Flat indices that agree in row and column are the same index.
proof fn lemma_flat_unique(j1: int, j2: int, row_len: int)
    requires
        j1 >= 0,
        j2 >= 0,
        row_len > 0,
        j1 % row_len == j2 % row_len,
        j1 / row_len == j2 / row_len,
    ensures
        j1 == j2,
{
    assert(j1 == j2) by (nonlinear_arith)
        requires
            j1 >= 0,
            j2 >= 0,
            row_len > 0,
            j1 % row_len == j2 % row_len,
            j1 / row_len == j2 / row_len,
    ;
}

/// The partition law: every pixel of the image lies in exactly one chunk of
/// a well-formed chunk list, so tile workers sample each pixel once and the
/// grid cell is written once per frame.
pub proof fn lemma_chunks_partition(
    chunks: Seq<PixelChunk>,
    width: int,
    height: int,
    size: int,
    px: int,
    py: int,
)
    requires
        size > 0,
        width + size <= u32::MAX,
        height + size <= u32::MAX,
        chunk_list_wf(chunks, width, height, size),
        0 <= px < width,
        0 <= py < height,
    ensures
        exists|i: int| 0 <= i < chunks.len() && chunk_contains(#[trigger] chunks[i], px, py),
        forall|i1: int, i2: int|
            0 <= i1 < chunks.len() && 0 <= i2 < chunks.len() && chunk_contains(
                #[trigger] chunks[i1],
                px,
                py,
            ) && chunk_contains(#[trigger] chunks[i2], px, py) ==> i1 == i2,
{
    let nx = chunk_count(width, size);
    let ny = chunk_count(height, size);
    lemma_chunk_count_bound(width, size);
    lemma_chunk_count_bound(height, size);
    let cx = px / size;
    let cy = py / size;
    assert(0 <= cx < nx && cx * size <= px < cx * size + size) by (nonlinear_arith)
        requires
            size > 0,
            0 <= px < width,
            cx == px / size,
            nx == chunk_count(width, size),
            nx * size >= width,
    ;
    assert(0 <= cy < ny && cy * size <= py < cy * size + size) by (nonlinear_arith)
        requires
            size > 0,
            0 <= py < height,
            cy == py / size,
            ny == chunk_count(height, size),
            ny * size >= height,
    ;
    let iw = cx * ny + cy;
    lemma_flat_index(cx, cy, ny);
    lemma_mul_le(cx, nx - 1, ny);
    assert((nx - 1) * ny + ny == nx * ny) by (nonlinear_arith);
    assert(0 <= iw < nx * ny);
    lemma_mul_le(cx, nx - 1, size);
    lemma_mul_le(cy, ny - 1, size);
    assert(chunk_contains(chunks[iw], px, py));
    assert forall|i1: int, i2: int|
        0 <= i1 < chunks.len() && 0 <= i2 < chunks.len() && chunk_contains(
            #[trigger] chunks[i1],
            px,
            py,
        ) && chunk_contains(#[trigger] chunks[i2], px, py) implies i1 == i2 by {
        lemma_containing_index(chunks, width, height, size, px, py, i1);
        lemma_containing_index(chunks, width, height, size, px, py, i2);
    }
}

/// Only the chunk at flat index `(px / size) * ny + py / size` contains
/// pixel (px, py).
proof fn lemma_containing_index(
    chunks: Seq<PixelChunk>,
    width: int,
    height: int,
    size: int,
    px: int,
    py: int,
    i: int,
)
    requires
        size > 0,
        width + size <= u32::MAX,
        height + size <= u32::MAX,
        chunk_list_wf(chunks, width, height, size),
        0 <= px < width,
        0 <= py < height,
        0 <= i < chunks.len(),
        chunk_contains(chunks[i], px, py),
    ensures
        i == (px / size) * chunk_count(height, size) + py / size,
{
    let nx = chunk_count(width, size);
    let ny = chunk_count(height, size);
    lemma_chunk_count_bound(width, size);
    lemma_chunk_count_bound(height, size);
    let cx = i / ny;
    let cy = i % ny;
    assert(0 <= cy < ny && 0 <= cx) by (nonlinear_arith)
        requires
            ny > 0 ==> true,
            0 <= i,
            cy == i % ny,
            cx == i / ny,
            ny >= 1,
    ;
    assert(cx < nx) by (nonlinear_arith)
        requires
            0 <= i < nx * ny,
            cx == i / ny,
            ny >= 1,
    ;
    lemma_mul_le(cx, nx, size);
    lemma_mul_le(cy, ny, size);
    assert(cx * size <= u32::MAX && cy * size <= u32::MAX);
    assert(chunks[i].x == cx * size && chunks[i].y == cy * size);
    assert(cx == px / size) by (nonlinear_arith)
        requires
            size > 0,
            cx * size <= px < cx * size + size,
            cx >= 0,
    ;
    assert(cy == py / size) by (nonlinear_arith)
        requires
            size > 0,
            cy * size <= py < cy * size + size,
            cy >= 0,
    ;
    assert(i == cx * ny + cy) by (nonlinear_arith)
        requires
            cx == i / ny,
            cy == i % ny,
            ny >= 1,
            i >= 0,
    ;
}

} // verus!
