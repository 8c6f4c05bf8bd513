use arena_gen::tiles::{wfc_tile_shapes, wfc_to_grid};
use arena_gen::wfc::{WfcGrid, WfcPick, WfcTile};
use rand::rngs::StdRng;
use rand::SeedableRng;

#[test]
fn tile_set_has_twelve_tiles_with_matching_patterns() {
    let tiles = wfc_tile_shapes();
    assert_eq!(tiles.len(), 12);
    assert_eq!(tiles[0].edges, [0, 0, 0, 0]);
    assert_eq!(tiles[1].edges, [1, 1, 1, 1]);
    assert_eq!(tiles[4].edges, [1, 1, 0, 0]);
    assert_eq!(tiles[11].edges, [1, 0, 1, 1]);
    for t in &tiles {
        assert_eq!(t.pattern[0][1], t.edges[0] == 1);
        assert_eq!(t.pattern[1][2], t.edges[1] == 1);
        assert_eq!(t.pattern[2][1], t.edges[2] == 1);
        assert_eq!(t.pattern[1][0], t.edges[3] == 1);
    }
}

#[test]
fn fresh_grid_offers_every_cell() {
    let w = WfcGrid::new(2, 2, 12);
    assert_eq!(w.min_entropy_cells(), Some(vec![(0, 0), (0, 1), (1, 0), (1, 1)]));
    assert_eq!(w.count_options(1, 1), 12);
    assert_eq!(w.options(0, 0), (0..12).collect::<Vec<usize>>());
}

#[test]
fn collapse_prunes_the_neighbour() {
    let tiles = wfc_tile_shapes();
    let mut w = WfcGrid::new(2, 1, tiles.len());
    // horizontal straight: east edge is a wall
    w.collapse(0, 0, 2, &tiles);
    assert_eq!(w.options(0, 0), vec![2]);
    assert_eq!(w.options(0, 1), vec![1, 2, 6, 7, 8, 10, 11]);
    assert_eq!(w.min_entropy_cells(), Some(vec![(0, 1)]));
    let mut rng = StdRng::seed_from_u64(1);
    assert!(matches!(w.pick_cell(&mut rng), WfcPick::Cell(0, 1)));
}

#[test]
fn propagation_travels_through_changed_cells() {
    let tiles = wfc_tile_shapes();
    let mut w = WfcGrid::new(3, 1, tiles.len());
    // fully open tile: its east neighbour must have an open west edge
    w.collapse(0, 0, 0, &tiles);
    assert_eq!(w.options(0, 1), vec![0, 3, 4, 5, 9]);
    // the middle cell still offers open and wall east edges, so the last cell keeps all
    assert_eq!(w.count_options(0, 2), 12);
    w.collapse(0, 1, 3, &tiles);
    assert_eq!(w.options(0, 2), vec![0, 3, 4, 5, 9]);
}

#[test]
fn finished_grid_reports_done_and_result() {
    let tiles = wfc_tile_shapes();
    let mut w = WfcGrid::new(2, 1, tiles.len());
    w.collapse(0, 0, 2, &tiles);
    w.collapse(0, 1, 1, &tiles);
    let mut rng = StdRng::seed_from_u64(9);
    assert!(matches!(w.pick_cell(&mut rng), WfcPick::Done));
    assert_eq!(w.result(), vec![vec![2, 1]]);
}

#[test]
fn unmatched_tile_set_ends_in_contradiction() {
    let tiles = vec![WfcTile { edges: [0, 1, 0, 0], pattern: [[false; 3]; 3] }];
    let mut w = WfcGrid::new(2, 1, 1);
    w.collapse(0, 0, 0, &tiles);
    assert_eq!(w.count_options(0, 1), 0);
    assert_eq!(w.min_entropy_cells(), None);
    let mut rng = StdRng::seed_from_u64(4);
    assert!(matches!(w.pick_cell(&mut rng), WfcPick::Contradiction));
}

#[test]
fn unfixed_cells_report_tile_zero() {
    let w = WfcGrid::new(2, 2, 3);
    assert_eq!(w.result(), vec![vec![0, 0], vec![0, 0]]);
}

#[test]
fn pick_cell_spreads_over_candidates() {
    let w = WfcGrid::new(3, 3, 12);
    let mut picked = Vec::new();
    for seed in 0..40u64 {
        let mut rng = StdRng::seed_from_u64(seed);
        match w.pick_cell(&mut rng) {
            WfcPick::Cell(r, c) => picked.push((r, c)),
            _ => panic!("a fresh grid has cells to pick"),
        }
    }
    assert!(picked.iter().any(|&p| p != (0, 0)));
    assert!(picked.iter().all(|&(r, c)| r < 3 && c < 3));
}

#[test]
fn expansion_draws_each_tile_as_a_block() {
    let tiles = wfc_tile_shapes();
    let grid = wfc_to_grid(&[vec![1, 0]], &tiles);
    assert_eq!(grid.len(), 3);
    for row in &grid {
        assert_eq!(row, &vec![true, true, true, false, false, false]);
    }
}

#[test]
fn expansion_of_a_straight_and_a_corner() {
    let tiles = wfc_tile_shapes();
    let grid = wfc_to_grid(&[vec![2, 7]], &tiles);
    assert_eq!(
        grid,
        vec![
            vec![false, false, false, false, true, false],
            vec![true, true, true, true, true, false],
            vec![false, false, false, false, false, false],
        ]
    );
}

#[test]
fn propagation_keeps_every_matching_tile() {
    let tiles = vec![WfcTile { edges: [0, 0, 0, 0], pattern: [[false; 3]; 3] }];
    let mut w = WfcGrid::new(3, 1, 1);
    w.collapse(0, 0, 0, &tiles);
    assert_eq!(w.options(0, 1), vec![0]);
    assert_eq!(w.options(0, 2), vec![0]);
    assert_eq!(w.min_entropy_cells(), Some(vec![(0, 1), (0, 2)]));
}

#[test]
fn single_tile_set_fills_the_grid_with_it() {
    let tiles = vec![WfcTile { edges: [0, 0, 0, 0], pattern: [[false; 3]; 3] }];
    let mut w = WfcGrid::new(3, 2, 1);
    let mut rng = StdRng::seed_from_u64(7);
    loop {
        match w.pick_cell(&mut rng) {
            WfcPick::Cell(r, c) => {
                let opts = w.options(r, c);
                assert_eq!(opts, vec![0]);
                w.collapse(r, c, opts[0], &tiles);
            }
            WfcPick::Done => break,
            WfcPick::Contradiction => panic!("a single open tile always fits"),
        }
    }
    assert_eq!(w.result(), vec![vec![0, 0, 0], vec![0, 0, 0]]);
}

#[test]
fn pick_cell_leaves_the_generator_alone_without_a_cell() {
    let w = WfcGrid::new(2, 2, 0);
    let mut rng = StdRng::seed_from_u64(3);
    let before = rng.clone();
    assert!(matches!(w.pick_cell(&mut rng), WfcPick::Contradiction));
    assert_eq!(rng, before);

    let tiles = vec![WfcTile { edges: [0, 0, 0, 0], pattern: [[false; 3]; 3] }];
    let mut done = WfcGrid::new(1, 1, 1);
    done.collapse(0, 0, 0, &tiles);
    let before = rng.clone();
    assert!(matches!(done.pick_cell(&mut rng), WfcPick::Done));
    assert_eq!(rng, before);
}

#[test]
fn finished_tiling_continues_walls_across_seams() {
    let tiles = wfc_tile_shapes();
    let (rows, cols) = (4, 5);
    let mut w = WfcGrid::new(cols, rows, tiles.len());
    let mut rng = StdRng::seed_from_u64(11);
    loop {
        match w.pick_cell(&mut rng) {
            WfcPick::Cell(r, c) => {
                let opts = w.options(r, c);
                let k = (r * 7 + c * 3) % opts.len();
                w.collapse(r, c, opts[k], &tiles);
            }
            WfcPick::Done => break,
            WfcPick::Contradiction => panic!("the tile set has a tile for every edge combination"),
        }
    }
    let g = wfc_to_grid(&w.result(), &tiles);
    for r in 0..rows {
        for c in 0..cols - 1 {
            assert_eq!(g[3 * r + 1][3 * c + 2], g[3 * r + 1][3 * c + 3]);
        }
    }
    for r in 0..rows - 1 {
        for c in 0..cols {
            assert_eq!(g[3 * r + 2][3 * c + 1], g[3 * r + 3][3 * c + 1]);
        }
    }
}
