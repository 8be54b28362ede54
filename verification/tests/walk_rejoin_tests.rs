//! A carve walk's backtracking pops pillars off its self-intersection
//! stack, so a later advance may rejoin the walk's own wall. On rare draw
//! sequences the rejoined wall closes a loop around a corridor cell, which
//! is then cut off from the rest of the corridors. This test pins one such
//! sequence and checks that every proved guarantee still holds of it, and
//! that the solver and the route reconstruction report the cut honestly.

use maze::grid::{Coord, MazeMap};
use maze::maze::Maze;
use maze::rng::FixedRandom;
use maze::solver::MazeSolverDfs;

fn open_count(map: &MazeMap) -> usize {
    map.iter().map(|row| row.iter().filter(|&&c| !c).count()).sum()
}

/// The values of a linear congruential stream; element drawn at seed 2073.
fn rejoining_draws() -> Vec<usize> {
    let seed: u64 = 2073;
    let mut s = seed.wrapping_mul(6364136223846793005).wrapping_add(1442695040888963407);
    let mut v = Vec::with_capacity(4096);
    for _ in 0..4096 {
        s = s.wrapping_mul(6364136223846793005).wrapping_add(1442695040888963407);
        v.push((s >> 16) as usize);
    }
    v
}

#[test]
fn self_rejoining_walk_can_enclose_a_cell() {
    let h = 15;
    let w = 15;
    let maze = Maze {
        height: h,
        width: w,
        start: Coord::new(h - 2, w - 2),
        goal: Coord::new(1, 1),
    };
    let mut rng = FixedRandom::new(rejoining_draws());
    let map = maze.generate(&mut rng);

    // everything the generator promises of every outcome holds here too
    for y in 0..h {
        for x in 0..w {
            if y == 0 || y == h - 1 || x == 0 || x == w - 1 {
                assert!(map[y][x]);
            }
            if y % 2 == 0 && x % 2 == 0 {
                assert!(map[y][x]);
            }
            if y % 2 == 1 && x % 2 == 1 {
                assert!(!map[y][x]);
            }
        }
    }

    // but one corridor cell ended up ringed by a rejoined wall loop
    assert!(!map[5][7]);
    assert!(map[4][7] && map[6][7] && map[5][6] && map[5][8]);

    // the search tells the truth about it: every open cell but the ringed
    // one is linked, and the route to the goal still comes out whole
    let dfs = MazeSolverDfs {
        height: h,
        width: w,
        start: Coord::new(h - 2, w - 2),
        goal: Coord::new(1, 1),
    };
    let moves = dfs.solve(&map);
    let linked = moves.iter().filter(|&&m| m != 0).count();
    assert_eq!(linked + 1, open_count(&map) - 1);
    assert_eq!(moves[5 * w + 7], 0);
    let path = dfs.ans_route(&moves).unwrap();
    assert_eq!((path[0].y, path[0].x), (1, 1));
}
