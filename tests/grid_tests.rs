use mandart_engine::grid::{build_grid, center_offset};

#[test]
fn grid_is_width_rows_of_height_cells() {
    let grid = build_grid(3, 2, |x: usize, y: usize| x * 10 + y);
    assert_eq!(grid, vec![vec![0, 1], vec![10, 11], vec![20, 21]]);
}

#[test]
fn grid_degenerate_sizes() {
    let empty: Vec<Vec<u8>> = build_grid(0, 4, |_x: usize, _y: usize| 1u8);
    assert!(empty.is_empty());
    let flat: Vec<Vec<u8>> = build_grid(3, 0, |_x: usize, _y: usize| 1u8);
    assert_eq!(flat, vec![Vec::<u8>::new(), vec![], vec![]]);
}

#[test]
fn grid_four_by_four_window() {
    let grid = build_grid(4, 4, |x: usize, y: usize| (center_offset(x as u32, 4), center_offset(y as u32, 4)));
    assert_eq!(grid.len(), 4);
    assert!(grid.iter().all(|col| col.len() == 4));
    assert_eq!(grid[0][0], (-2, -2));
    assert_eq!(grid[3][1], (1, -1));
}

#[test]
fn center_offsets_use_whole_pixels() {
    assert_eq!(center_offset(0, 5), -2);
    assert_eq!(center_offset(4, 4), 2);
    assert_eq!(center_offset(3, 7), 0);
    assert_eq!(center_offset(0, 1), 0);
    assert_eq!(center_offset(u32::MAX, u32::MAX), (u32::MAX - u32::MAX / 2) as i64);
}
