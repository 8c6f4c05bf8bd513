use arena_gen::open_space::keep_largest_region;

fn grid(rows: &[&str]) -> Vec<Vec<bool>> {
    rows.iter().map(|r| r.chars().map(|ch| ch == '#').collect()).collect()
}

#[test]
fn smaller_regions_are_filled() {
    let g = grid(&[
        "..#.",
        "..#.",
        "####",
        "...#",
    ]);
    let out = keep_largest_region(&g);
    assert_eq!(
        out,
        grid(&[
            "..##",
            "..##",
            "####",
            "####",
        ])
    );
}

#[test]
fn the_first_of_equally_large_regions_is_kept() {
    let g = grid(&["..#..", "..#.."]);
    let out = keep_largest_region(&g);
    assert_eq!(out, grid(&["..###", "..###"]));
}

#[test]
fn a_single_region_is_left_alone() {
    let g = grid(&[".#.", "...", ".#."]);
    assert_eq!(keep_largest_region(&g), g);
}

#[test]
fn solid_grid_keeps_no_open_region() {
    let g = grid(&["##", "##"]);
    assert_eq!(keep_largest_region(&g), g);
}
