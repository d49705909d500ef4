use lart::grid::Grid;
use lart::wfc::{solve, Tile};
use rand::SeedableRng;
use rand_xoshiro::Xoshiro256StarStar;

fn assert_is_tiling(tiles: &[Tile], g: &Grid<usize>, width: usize, height: usize) {
    assert_eq!(g.width(), width);
    assert_eq!(g.height(), height);
    assert_eq!(g.cells().len(), width * height);
    for y in 0..height {
        for x in 0..width {
            let t = *g.get(x, y).unwrap();
            assert!(t < tiles.len());
            if x + 1 < width {
                let r = *g.get(x + 1, y).unwrap();
                assert_eq!(tiles[t].right, tiles[r].left);
            }
            if y + 1 < height {
                let d = *g.get(x, y + 1).unwrap();
                assert_eq!(tiles[t].bottom, tiles[d].top);
            }
        }
    }
}

#[test]
fn tile_new_has_weight_one() {
    let t = Tile::new(1, 2, 3, 4);
    assert_eq!((t.left, t.top, t.right, t.bottom, t.weight), (1, 2, 3, 4, 1));
    let t = t.with_weight(9);
    assert_eq!((t.left, t.top, t.right, t.bottom, t.weight), (1, 2, 3, 4, 9));
}

#[test]
fn solve_refuses_empty_sizes_and_no_tiles() {
    let mut rng = Xoshiro256StarStar::seed_from_u64(1);
    let tiles = [Tile::new(0, 0, 0, 0)];
    assert!(solve(&mut rng, &tiles, 0, 3).is_none());
    assert!(solve(&mut rng, &tiles, 3, 0).is_none());
    assert!(solve(&mut rng, &[], 3, 3).is_none());
}

#[test]
fn matching_tiles_fill_every_grid() {
    let tiles = [
        Tile::new(5, 5, 5, 5),
        Tile::new(5, 5, 5, 5),
        Tile::new(5, 5, 5, 5),
        Tile::new(5, 5, 5, 5),
    ];
    for seed in 0..8u64 {
        let mut rng = Xoshiro256StarStar::seed_from_u64(seed);
        for (w, h) in [(1usize, 1usize), (1, 7), (7, 1), (2, 2), (5, 4), (9, 9)] {
            let g = solve(&mut rng, &tiles, w, h).expect("a solution exists");
            assert_is_tiling(&tiles, &g, w, h);
        }
    }
}

#[test]
fn unmatched_tiles_fill_one_cell_only() {
    let tiles = [Tile::new(1, 1, 2, 2), Tile::new(3, 3, 4, 4)];
    let mut rng = Xoshiro256StarStar::seed_from_u64(7);
    assert!(solve(&mut rng, &tiles, 2, 1).is_none());
    assert!(solve(&mut rng, &tiles, 1, 2).is_none());
    assert!(solve(&mut rng, &tiles, 3, 3).is_none());
    let g = solve(&mut rng, &tiles, 1, 1).expect("one cell takes any tile");
    assert_is_tiling(&tiles, &g, 1, 1);
}

#[test]
fn solve_backtracks_to_the_only_solution() {
    // Rows must alternate between the two tiles of a pair, and only the
    // heavy tile 0 starts a row that can be continued.
    let tiles = [
        Tile::new(0, 9, 1, 9).with_weight(1),
        Tile::new(1, 9, 0, 9).with_weight(1),
        Tile::new(7, 9, 8, 9).with_weight(1000),
    ];
    for seed in 0..16u64 {
        let mut rng = Xoshiro256StarStar::seed_from_u64(seed);
        let g = solve(&mut rng, &tiles, 4, 3).expect("a solution exists");
        assert_is_tiling(&tiles, &g, 4, 3);
        assert!(g.cells().iter().all(|t| *t < 2));
    }
}

#[test]
fn solve_uses_the_weights() {
    let tiles = [Tile::new(0, 0, 0, 0).with_weight(1), Tile::new(0, 0, 0, 0).with_weight(99)];
    let mut rng = Xoshiro256StarStar::seed_from_u64(3);
    let g = solve(&mut rng, &tiles, 20, 20).expect("a solution exists");
    assert_is_tiling(&tiles, &g, 20, 20);
    let heavy = g.cells().iter().filter(|t| **t == 1).count();
    assert!(heavy > 300, "the heavy tile was drawn {heavy} times out of 400");
}

#[test]
fn solve_takes_the_heaviest_weights() {
    let tiles: Vec<Tile> = (0..8).map(|_| Tile::new(2, 2, 2, 2).with_weight(u32::MAX)).collect();
    let mut rng = Xoshiro256StarStar::seed_from_u64(11);
    let g = solve(&mut rng, &tiles, 6, 6).expect("a solution exists");
    assert_is_tiling(&tiles, &g, 6, 6);
}

#[test]
fn solve_finds_the_way_through_a_narrow_tile_set() {
    // Borders count up along a row and down a column, so that each cell has
    // one tile that fits once its neighbours are placed.
    let mut tiles = vec![];
    for row in 0..4u8 {
        for col in 0..4u8 {
            tiles.push(Tile::new(10 + col, 20 + row, 11 + col, 21 + row));
        }
    }
    for seed in 0..6u64 {
        let mut rng = Xoshiro256StarStar::seed_from_u64(seed);
        let g = solve(&mut rng, &tiles, 4, 4).expect("a solution exists");
        assert_is_tiling(&tiles, &g, 4, 4);
        let cells: Vec<usize> = g.cells().to_vec();
        assert_eq!(cells, (0..16).collect::<Vec<usize>>());
        assert!(solve(&mut rng, &tiles, 5, 4).is_none());
        assert!(solve(&mut rng, &tiles, 4, 5).is_none());
    }
}
