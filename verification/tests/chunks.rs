use raytracer::chunk::{chunk_pixel_positions, make_pixel_chunks, PixelChunk};

#[test]
fn chunk_grid_counts_round_up() {
    let chunks = make_pixel_chunks(16, 16, 5);
    assert_eq!(chunks.len(), 16); // ceil(16/5) = 4 per side
    let chunks = make_pixel_chunks(15, 10, 5);
    assert_eq!(chunks.len(), 6); // 3 columns, 2 rows
    let chunks = make_pixel_chunks(1, 1, 5);
    assert_eq!(chunks.len(), 1);
}

#[test]
fn chunks_anchored_at_multiples_column_major() {
    let chunks = make_pixel_chunks(10, 10, 5);
    let expected = [(0, 0), (0, 5), (5, 0), (5, 5)];
    assert_eq!(chunks.len(), expected.len());
    for (c, (x, y)) in chunks.iter().zip(expected.iter()) {
        assert_eq!((c.x, c.y), (*x, *y));
        assert_eq!(c.chunk_size, 5);
    }
}

#[test]
fn every_pixel_in_exactly_one_chunk() {
    let width = 17u32;
    let height = 13u32;
    let chunks = make_pixel_chunks(width, height, 5);
    for px in 0..width {
        for py in 0..height {
            let holders = chunks
                .iter()
                .filter(|c| {
                    c.x <= px && px < c.x + c.chunk_size && c.y <= py && py < c.y + c.chunk_size
                })
                .count();
            assert_eq!(holders, 1, "pixel ({px}, {py})");
        }
    }
}

#[test]
fn chunk_positions_clipped_to_image() {
    let interior = PixelChunk { x: 5, y: 5, chunk_size: 5 };
    let positions = chunk_pixel_positions(&interior, 16, 16);
    assert_eq!(positions.len(), 25);
    assert_eq!(positions[0], (5, 5));
    assert_eq!(positions[4], (9, 5));
    assert_eq!(positions[5], (5, 6)); // row-major, rows of five
    assert_eq!(positions[24], (9, 9));

    let corner = PixelChunk { x: 15, y: 15, chunk_size: 5 };
    let positions = chunk_pixel_positions(&corner, 16, 16);
    assert_eq!(positions, vec![(15, 15)]);

    let edge = PixelChunk { x: 15, y: 0, chunk_size: 5 };
    let positions = chunk_pixel_positions(&edge, 16, 13);
    assert_eq!(positions.len(), 5);
    for (i, pos) in positions.iter().enumerate() {
        assert_eq!(*pos, (15, i as u32));
    }
}
