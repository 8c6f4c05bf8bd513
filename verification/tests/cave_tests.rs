use arena_gen::cave::{smooth_cave, smooth_step};

#[test]
fn open_grid_gets_wall_corners() {
    let g = vec![vec![false; 3]; 3];
    let next = smooth_step(&g, 3, 3);
    assert_eq!(
        next,
        vec![vec![true, false, true], vec![false, false, false], vec![true, false, true]]
    );
}

#[test]
fn two_passes_close_the_border() {
    let g = vec![vec![false; 3]; 3];
    let out = smooth_cave(g, 3, 3, 2);
    assert_eq!(
        out,
        vec![vec![true, true, true], vec![true, false, true], vec![true, true, true]]
    );
}

#[test]
fn solid_grid_stays_solid() {
    let g = vec![vec![true; 4]; 3];
    let out = smooth_cave(g.clone(), 3, 4, 5);
    assert_eq!(out, g);
}

#[test]
fn zero_passes_change_nothing() {
    let g = vec![vec![false, true], vec![true, false]];
    let out = smooth_cave(g.clone(), 2, 2, 0);
    assert_eq!(out, g);
}

#[test]
fn one_pass_on_mixed_grid() {
    let g = vec![
        vec![false, true, false, false],
        vec![false, false, false, true],
        vec![true, false, false, false],
    ];
    let next = smooth_step(&g, 3, 4);
    assert_eq!(
        next,
        vec![
            vec![true, false, true, true],
            vec![true, false, false, false],
            vec![true, false, false, true],
        ]
    );
}

#[test]
fn single_cell_grid_becomes_wall() {
    let g = vec![vec![false]];
    assert_eq!(smooth_step(&g, 1, 1), vec![vec![true]]);
}
