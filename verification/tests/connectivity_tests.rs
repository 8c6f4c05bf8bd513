use arena_gen::connectivity::is_grid_connected;

#[test]
fn open_grid_is_connected() {
    let obstacles = vec![false; 6];
    assert!(is_grid_connected(&obstacles, 3, 2));
}

#[test]
fn wall_column_splits_grid() {
    let obstacles = vec![false, true, false, false, true, false, false, true, false];
    assert!(!is_grid_connected(&obstacles, 3, 3));
}

#[test]
fn wall_column_with_gap_keeps_grid_connected() {
    let obstacles = vec![false, true, false, false, false, false, false, true, false];
    assert!(is_grid_connected(&obstacles, 3, 3));
}

#[test]
fn grid_without_open_cells_counts_as_connected() {
    let obstacles = vec![true; 4];
    assert!(is_grid_connected(&obstacles, 2, 2));
}

#[test]
fn empty_grid_counts_as_connected() {
    let obstacles: Vec<bool> = Vec::new();
    assert!(is_grid_connected(&obstacles, 0, 5));
}

#[test]
fn diagonal_cells_are_not_neighbours() {
    let obstacles = vec![false, true, true, false];
    assert!(!is_grid_connected(&obstacles, 2, 2));
}

#[test]
fn row_ends_do_not_wrap_around() {
    // (0, 2) and (1, 0) are consecutive in memory but not neighbours
    let obstacles = vec![true, true, false, false, true, true];
    assert!(!is_grid_connected(&obstacles, 3, 2));
}

#[test]
fn winding_corridor_is_connected() {
    let obstacles = vec![
        false, false, false, false, //
        true, true, true, false, //
        false, false, false, false, //
        false, true, true, true,
    ];
    assert!(is_grid_connected(&obstacles, 4, 4));
}

#[test]
fn open_entry_beyond_the_grid_is_unreachable() {
    let obstacles = vec![false, false, false, false, false];
    assert!(!is_grid_connected(&obstacles, 2, 2));
}

#[test]
fn open_entry_beyond_a_solid_grid_is_ignored() {
    let obstacles = vec![true, true, true, true, false];
    assert!(is_grid_connected(&obstacles, 2, 2));
}

#[test]
fn short_map_is_read_only_where_the_fill_reaches() {
    // three grid cells, two map entries: the fill from cell 0 stops at the wall
    let obstacles = vec![false, true];
    assert!(is_grid_connected(&obstacles, 1, 3));
}

#[test]
fn transposed_grid_has_the_same_connectivity() {
    let cases: Vec<(Vec<bool>, usize, usize)> = vec![
        (vec![false, true, false, false, true, false], 3, 2),
        (vec![false, true, false, false, false, false], 3, 2),
        (vec![false, false, true, true, false, false, false, true], 4, 2),
    ];
    for (o, cols, rows) in cases {
        let mut t = vec![false; cols * rows];
        for r in 0..rows {
            for c in 0..cols {
                t[c * rows + r] = o[r * cols + c];
            }
        }
        assert_eq!(is_grid_connected(&o, cols, rows), is_grid_connected(&t, rows, cols));
    }
}
