use arena_gen::pockets::{consider_point, fill_pockets, wfc_amended};
use arena_gen::regions::label_open_regions;
use rand::rngs::StdRng;
use rand::SeedableRng;

fn grid(rows: &[&str]) -> Vec<Vec<bool>> {
    rows.iter().map(|r| r.chars().map(|ch| ch == '#').collect()).collect()
}

fn ring() -> Vec<Vec<bool>> {
    grid(&[".....", ".###.", ".#.#.", ".###.", "....."])
}

#[test]
fn enclosed_pocket_is_filled_and_everything_else_cleared() {
    let mut rng = StdRng::seed_from_u64(7);
    let out = wfc_amended(&ring(), 1, 0, &mut rng);
    let mut expected = vec![vec![false; 5]; 5];
    expected[2][2] = true;
    assert_eq!(out, expected);
}

#[test]
fn pocket_grows_by_the_border_thickness() {
    let mut rng = StdRng::seed_from_u64(11);
    let out = wfc_amended(&ring(), 1, 1, &mut rng);
    let mut expected = vec![vec![false; 5]; 5];
    for r in 1..4 {
        for c in 1..4 {
            expected[r][c] = true;
        }
    }
    assert_eq!(out, expected);
}

#[test]
fn no_points_clear_the_whole_grid() {
    let mut rng = StdRng::seed_from_u64(3);
    let out = wfc_amended(&ring(), 0, 2, &mut rng);
    assert_eq!(out, vec![vec![false; 5]; 5]);
}

#[test]
fn regions_touching_the_edge_are_never_filled() {
    let g = grid(&["..#..", "..#..", "..#.."]);
    let mut rng = StdRng::seed_from_u64(5);
    let out = wfc_amended(&g, 4, 0, &mut rng);
    assert_eq!(out, vec![vec![false; 5]; 3]);
}

#[test]
fn two_pockets_can_both_be_filled_without_border() {
    let g = grid(&[".......", ".#####.", ".#.#.#.", ".#####.", "......."]);
    let mut rng = StdRng::seed_from_u64(2);
    let out = wfc_amended(&g, 2, 0, &mut rng);
    let mut expected = vec![vec![false; 7]; 5];
    expected[2][2] = true;
    expected[2][4] = true;
    assert_eq!(out, expected);
}

#[test]
fn adjacent_pockets_exclude_each_other_with_a_border() {
    let g = grid(&[".......", ".#####.", ".#.#.#.", ".#####.", "......."]);
    let mut rng = StdRng::seed_from_u64(2);
    let out = wfc_amended(&g, 2, 1, &mut rng);
    // the two pockets are one wall apart, so only one of them is kept
    let left = out[2][1] && out[2][2] && out[2][3] && !out[2][5];
    let right = out[2][3] && out[2][4] && out[2][5] && !out[2][1];
    assert!(left ^ right);
}

#[test]
fn consider_point_picks_enclosed_regions_once() {
    let (labels, n) = label_open_regions(&ring());
    assert_eq!(n, 2);
    let touches = vec![true, false];
    let mut selected = vec![false, false];
    let mut ids: Vec<usize> = Vec::new();
    // a wall
    assert!(!consider_point(&labels, &touches, &None, &mut selected, &mut ids, 1, 1));
    // the outer ring touches the edge
    assert!(!consider_point(&labels, &touches, &None, &mut selected, &mut ids, 0, 0));
    // the enclosed cell
    assert!(consider_point(&labels, &touches, &None, &mut selected, &mut ids, 2, 2));
    assert_eq!(selected, vec![false, true]);
    assert_eq!(ids, vec![1]);
    // already picked
    assert!(!consider_point(&labels, &touches, &None, &mut selected, &mut ids, 2, 2));
    assert_eq!(ids, vec![1]);
}

#[test]
fn consider_point_respects_adjacency() {
    let g = grid(&[".......", ".#####.", ".#.#.#.", ".#####.", "......."]);
    let (labels, n) = label_open_regions(&g);
    assert_eq!(n, 3);
    let touches = vec![true, false, false];
    let adj = Some(vec![
        vec![false, false, false],
        vec![false, false, true],
        vec![false, true, false],
    ]);
    let mut selected = vec![false; 3];
    let mut ids: Vec<usize> = Vec::new();
    assert!(consider_point(&labels, &touches, &adj, &mut selected, &mut ids, 2, 4));
    assert!(!consider_point(&labels, &touches, &adj, &mut selected, &mut ids, 2, 2));
    assert_eq!(ids, vec![2]);
    assert_eq!(selected, vec![false, false, true]);
}

#[test]
fn fill_pockets_grows_by_chebyshev_distance() {
    let labels = vec![
        vec![0, 0, 0, 0, 0],
        vec![0, -1, -1, -1, 0],
        vec![0, -1, 1, -1, 0],
        vec![0, -1, -1, -1, 0],
        vec![0, 0, 0, 0, 0],
    ];
    let bare = fill_pockets(&labels, &[false, true], 0);
    let mut expected = vec![vec![false; 5]; 5];
    expected[2][2] = true;
    assert_eq!(bare, expected);
    let grown = fill_pockets(&labels, &[false, true], 2);
    assert_eq!(grown, vec![vec![true; 5]; 5]);
    let none = fill_pockets(&labels, &[false, false], 3);
    assert_eq!(none, vec![vec![false; 5]; 5]);
}

#[test]
fn space_cut_off_by_a_filled_ring_is_closed() {
    // the enclosed ring region surrounds a single wall cell; once the ring is
    // filled, that cell would be open but cut off, so it is filled as well
    let g = grid(&[
        ".......",
        ".#####.",
        ".#...#.",
        ".#.#.#.",
        ".#...#.",
        ".#####.",
        ".......",
    ]);
    let mut rng = StdRng::seed_from_u64(13);
    let out = wfc_amended(&g, 1, 0, &mut rng);
    for &(r, c) in &[(2, 2), (2, 3), (2, 4), (3, 2), (3, 3), (3, 4), (4, 2), (4, 3), (4, 4)] {
        assert!(out[r][c]);
    }
    assert!(!out[0][0]);
    assert!(!out[1][1]);
    let obstacles: Vec<bool> = out.iter().flat_map(|r| r.iter().copied()).collect();
    assert!(arena_gen::connectivity::is_grid_connected(&obstacles, 7, 7));
}

#[test]
fn amended_open_space_is_connected_for_many_seeds() {
    let g = grid(&[
        "..........",
        ".###..###.",
        ".#.#..#.#.",
        ".###..###.",
        "..........",
        "..####....",
        "..#..#.##.",
        "..####.##.",
        "..........",
    ]);
    for seed in 0..20u64 {
        for border in 0..3usize {
            let mut rng = StdRng::seed_from_u64(seed);
            let out = wfc_amended(&g, 3, border, &mut rng);
            let obstacles: Vec<bool> = out.iter().flat_map(|r| r.iter().copied()).collect();
            assert!(arena_gen::connectivity::is_grid_connected(&obstacles, 10, 9));
        }
    }
}

#[test]
fn no_points_leave_the_generator_alone() {
    let g = grid(&["#.#", "...", "#.#"]);
    let mut rng = StdRng::seed_from_u64(5);
    let before = rng.clone();
    let out = wfc_amended(&g, 0, 1, &mut rng);
    assert_eq!(rng, before);
    assert_eq!(out, grid(&["...", "...", "..."]));
}
