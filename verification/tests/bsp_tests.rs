use arena_gen::bsp::{carve_corridor, BspBuilder, BspStep};
use rand::rngs::StdRng;
use rand::SeedableRng;

fn run(builder: &mut BspBuilder, rng: &mut StdRng) -> usize {
    let mut rooms = 0;
    loop {
        match builder.step(rng) {
            BspStep::Room(w, h) => {
                builder.place_room(w * 6 / 10, h * 6 / 10, rng);
                rooms += 1;
            }
            BspStep::Working => {}
            BspStep::Finished => return rooms,
        }
    }
}

fn open_cells(grid: &[Vec<bool>]) -> usize {
    grid.iter().map(|r| r.iter().filter(|&&w| !w).count()).sum()
}

#[test]
fn corridor_runs_along_the_first_row_then_down() {
    let mut g = vec![vec![true; 5]; 5];
    carve_corridor(&mut g, 0, 0, 4, 2, 1);
    let expected = vec![
        vec![false, false, false, false, false],
        vec![true, true, true, true, false],
        vec![true, true, true, true, false],
        vec![true, true, true, true, true],
        vec![true, true, true, true, true],
    ];
    assert_eq!(g, expected);
}

#[test]
fn corridor_is_clipped_to_the_grid() {
    let mut g = vec![vec![true; 4]; 3];
    carve_corridor(&mut g, 3, 2, 1, 0, 2);
    let expected = vec![
        vec![true, false, false, true],
        vec![true, false, false, true],
        vec![true, false, false, false],
    ];
    assert_eq!(g, expected);
}

#[test]
fn leaf_root_gets_one_room_of_the_requested_size() {
    let mut b = BspBuilder::new(20, 10, 0, 1);
    let mut rng = StdRng::seed_from_u64(1);
    match b.step(&mut rng) {
        BspStep::Room(w, h) => {
            assert_eq!((w, h), (20, 10));
        }
        _ => panic!("the root region is a leaf"),
    }
    b.place_room(10, 5, &mut rng);
    assert!(matches!(b.step(&mut rng), BspStep::Finished));
    let grid = b.into_grid();
    assert_eq!(grid.len(), 10);
    assert!(grid.iter().all(|r| r.len() == 20));
    assert_eq!(open_cells(&grid), 50);
    // the room keeps a wall margin on the top and left
    assert!(grid[0].iter().all(|&w| w));
    assert!(grid.iter().all(|r| r[0]));
}

#[test]
fn raw_room_sizes_are_clamped() {
    let mut b = BspBuilder::new(10, 6, 0, 1);
    let mut rng = StdRng::seed_from_u64(2);
    assert!(matches!(b.step(&mut rng), BspStep::Room(10, 6)));
    b.place_room(0, 100, &mut rng);
    // width 2, height 4
    assert_eq!(open_cells(&b.into_grid()), 8);
}

#[test]
fn room_offsets_vary_with_the_seed() {
    let mut corners = Vec::new();
    for seed in 0..20u64 {
        let mut b = BspBuilder::new(20, 10, 0, 1);
        let mut rng = StdRng::seed_from_u64(seed);
        b.step(&mut rng);
        b.place_room(4, 3, &mut rng);
        let grid = b.into_grid();
        let first = (0..10)
            .flat_map(|r| (0..20).map(move |c| (r, c)))
            .find(|&(r, c)| !grid[r][c])
            .unwrap();
        corners.push(first);
    }
    assert!(corners.iter().any(|&p| p != (1, 1)));
}

#[test]
fn deep_partition_finishes_with_several_rooms() {
    let mut b = BspBuilder::new(56, 30, 3, 1);
    let mut rng = StdRng::seed_from_u64(42);
    let rooms = run(&mut b, &mut rng);
    assert!(rooms >= 2 && rooms <= 8);
    let grid = b.into_grid();
    assert_eq!(grid.len(), 30);
    assert!(grid.iter().all(|r| r.len() == 56));
    assert!(open_cells(&grid) > 0);
    assert!(open_cells(&grid) < 56 * 30);
}

#[test]
fn split_regions_are_joined_by_corridors() {
    let mut b = BspBuilder::new(40, 12, 1, 1);
    let mut rng = StdRng::seed_from_u64(8);
    let rooms = run(&mut b, &mut rng);
    assert_eq!(rooms, 2);
    let grid = b.into_grid();
    let obstacles: Vec<bool> = grid.iter().flat_map(|r| r.iter().copied()).collect();
    assert!(arena_gen::connectivity::is_grid_connected(&obstacles, 40, 12));
}

#[test]
fn top_row_and_left_column_stay_wall() {
    for seed in 0..10u64 {
        let mut b = BspBuilder::new(40, 30, 4, 2);
        let mut rng = StdRng::seed_from_u64(seed);
        run(&mut b, &mut rng);
        let g = b.into_grid();
        assert!(g[0].iter().all(|&w| w));
        assert!(g.iter().all(|row| row[0]));
    }
}
