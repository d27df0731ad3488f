use raytracer::pixel::{make_empty_pixel_data, pixel_grid_to_rgba_bytes, store_pixels, Pixel, Rgba8};

#[test]
fn empty_grid_has_positioned_black_pixels() {
    let grid = make_empty_pixel_data(16, 16);
    assert_eq!(grid.len(), 16);
    for (y, row) in grid.iter().enumerate() {
        assert_eq!(row.len(), 16);
        for (x, p) in row.iter().enumerate() {
            assert_eq!(p.position(), (x as u32, y as u32));
            assert_eq!(p.color(), Rgba8 { r: 0, g: 0, b: 0, a: 0 });
        }
    }
}

#[test]
fn empty_grid_zero_sized() {
    assert_eq!(make_empty_pixel_data(0, 0).len(), 0);
    let grid = make_empty_pixel_data(3, 0);
    assert_eq!(grid.len(), 0);
    let grid = make_empty_pixel_data(0, 3);
    assert_eq!(grid.len(), 3);
    assert_eq!(grid[0].len(), 0);
}

#[test]
fn rgba_bytes_row_major_layout() {
    let mut grid = make_empty_pixel_data(2, 2);
    let updates = vec![
        Pixel::new(0, 0, Rgba8 { r: 1, g: 2, b: 3, a: 255 }),
        Pixel::new(1, 0, Rgba8 { r: 4, g: 5, b: 6, a: 255 }),
        Pixel::new(0, 1, Rgba8 { r: 7, g: 8, b: 9, a: 255 }),
        Pixel::new(1, 1, Rgba8 { r: 10, g: 11, b: 12, a: 255 }),
    ];
    store_pixels(&mut grid, &updates);
    let bytes = pixel_grid_to_rgba_bytes(&grid, 2, 2);
    assert_eq!(
        bytes,
        vec![1, 2, 3, 255, 4, 5, 6, 255, 7, 8, 9, 255, 10, 11, 12, 255]
    );
}

#[test]
fn store_pixels_last_write_wins() {
    let mut grid = make_empty_pixel_data(4, 4);
    let updates = vec![
        Pixel::new(2, 1, Rgba8 { r: 10, g: 0, b: 0, a: 255 }),
        Pixel::new(3, 3, Rgba8 { r: 20, g: 0, b: 0, a: 255 }),
        Pixel::new(2, 1, Rgba8 { r: 30, g: 0, b: 0, a: 255 }),
    ];
    store_pixels(&mut grid, &updates);
    assert_eq!(grid[1][2].color().r, 30);
    assert_eq!(grid[3][3].color().r, 20);
    assert_eq!(grid[0][0].color(), Rgba8 { r: 0, g: 0, b: 0, a: 0 });
    // an update outside the grid is ignored
    let stray = vec![Pixel::new(9, 9, Rgba8 { r: 1, g: 1, b: 1, a: 255 })];
    store_pixels(&mut grid, &stray);
    assert_eq!(grid.len(), 4);
    assert_eq!(grid[1][2].color().r, 30);
}
