use arena_gen::adjacency::region_adjacency;
use arena_gen::regions::label_open_regions;

fn grid(rows: &[&str]) -> Vec<Vec<bool>> {
    rows.iter().map(|r| r.chars().map(|ch| ch == '#').collect()).collect()
}

#[test]
fn regions_are_labelled_in_scan_order() {
    let g = grid(&[".#.#.", ".###.", "..#.."]);
    let (labels, n) = label_open_regions(&g);
    assert_eq!(n, 3);
    assert_eq!(
        labels,
        vec![vec![0, -1, 1, -1, 2], vec![0, -1, -1, -1, 2], vec![0, 0, -1, 2, 2]]
    );
}

#[test]
fn solid_grid_has_no_regions() {
    let g = grid(&["##", "##"]);
    let (labels, n) = label_open_regions(&g);
    assert_eq!(n, 0);
    assert_eq!(labels, vec![vec![-1, -1], vec![-1, -1]]);
}

#[test]
fn open_grid_is_one_region() {
    let g = grid(&["...", "..."]);
    let (labels, n) = label_open_regions(&g);
    assert_eq!(n, 1);
    assert_eq!(labels, vec![vec![0, 0, 0], vec![0, 0, 0]]);
}

#[test]
fn ring_and_enclosed_cell_are_two_regions() {
    let g = grid(&[".....", ".###.", ".#.#.", ".###.", "....."]);
    let (labels, n) = label_open_regions(&g);
    assert_eq!(n, 2);
    assert_eq!(labels[2][2], 1);
    assert_eq!(labels[0][0], 0);
    assert_eq!(labels[4][4], 0);
    assert_eq!(labels[1][1], -1);
}

#[test]
fn single_walls_link_regions() {
    let g = grid(&[".#.#.", ".###.", "..#.."]);
    let (labels, n) = label_open_regions(&g);
    let adj = region_adjacency(&labels, n, 1);
    assert_eq!(
        adj,
        vec![vec![false, true, true], vec![true, false, true], vec![true, true, false]]
    );
}

#[test]
fn no_walls_allowed_means_no_links() {
    let g = grid(&[".#.#.", ".###.", "..#.."]);
    let (labels, n) = label_open_regions(&g);
    let adj = region_adjacency(&labels, n, 0);
    assert_eq!(adj, vec![vec![false; 3]; 3]);
}

#[test]
fn thick_wall_needs_larger_limit() {
    let g = grid(&["..##..", "######", "..##.."]);
    let (labels, n) = label_open_regions(&g);
    assert_eq!(n, 4);
    let narrow = region_adjacency(&labels, n, 1);
    assert_eq!(
        narrow,
        vec![
            vec![false, false, true, false],
            vec![false, false, false, true],
            vec![true, false, false, false],
            vec![false, true, false, false],
        ]
    );
    let wide = region_adjacency(&labels, n, 2);
    assert_eq!(
        wide,
        vec![
            vec![false, true, true, false],
            vec![true, false, false, true],
            vec![true, false, false, true],
            vec![false, true, true, false],
        ]
    );
}

#[test]
fn vertical_runs_link_regions() {
    let g = grid(&[".", "#", "#", "."]);
    let (labels, n) = label_open_regions(&g);
    assert_eq!(n, 2);
    assert_eq!(region_adjacency(&labels, n, 1), vec![vec![false; 2]; 2]);
    assert_eq!(region_adjacency(&labels, n, 2), vec![vec![false, true], vec![true, false]]);
}
