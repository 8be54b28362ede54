use maze::grid::{Coord, MazeError, MazeHelper, MazeMap};
use maze::maze::Maze;
use maze::rng::{FixedRandom, RandomSource, ThreadRandom};
use maze::solver::MazeSolverDfs;

fn fixed_source() -> FixedRandom {
    FixedRandom::new(vec![3, 1, 4, 1, 5, 9, 2, 6, 5, 3, 5, 8, 9, 7, 9, 3, 2, 3, 8, 4])
}

fn maze_of(height: usize, width: usize) -> Maze {
    Maze {
        height,
        width,
        start: Coord::new(height - 2, width - 2),
        goal: Coord::new(1, 1),
    }
}

fn solver_of(height: usize, width: usize) -> MazeSolverDfs {
    MazeSolverDfs {
        height,
        width,
        start: Coord::new(height - 2, width - 2),
        goal: Coord::new(1, 1),
    }
}

fn open_count(map: &MazeMap) -> usize {
    map.iter().map(|row| row.iter().filter(|&&c| !c).count()).sum()
}

/// The number of horizontally or vertically adjacent pairs of open cells.
fn open_pair_count(map: &MazeMap) -> usize {
    let h = map.len();
    let w = map[0].len();
    let mut pairs = 0;
    for y in 0..h {
        for x in 0..w {
            if !map[y][x] {
                if x + 1 < w && !map[y][x + 1] {
                    pairs += 1;
                }
                if y + 1 < h && !map[y + 1][x] {
                    pairs += 1;
                }
            }
        }
    }
    pairs
}

fn check_structure(map: &MazeMap, height: usize, width: usize) {
    assert_eq!(map.len(), height);
    for row in map {
        assert_eq!(row.len(), width);
    }
    // border cells are all walls
    for y in 0..height {
        for x in 0..width {
            if y == 0 || y == height - 1 || x == 0 || x == width - 1 {
                assert!(map[y][x], "border cell ({}, {}) is open", y, x);
            }
        }
    }
    // every pillar is part of the wall structure, and no cell with two odd
    // coordinates was ever walled
    for y in 0..height {
        for x in 0..width {
            if y % 2 == 0 && x % 2 == 0 {
                assert!(map[y][x], "pillar ({}, {}) is open", y, x);
            }
            if y % 2 == 1 && x % 2 == 1 {
                assert!(!map[y][x], "odd cell ({}, {}) is walled", y, x);
            }
        }
    }
}

/// The open cells form a tree: edges are exactly one fewer than cells, and
/// the search from the start reaches every open cell.
fn check_perfect(map: &MazeMap, height: usize, width: usize) {
    let opens = open_count(map);
    let pairs = open_pair_count(map);
    assert_eq!(opens, pairs + 1, "open cells do not form a tree");

    let dfs = solver_of(height, width);
    let moves = dfs.solve(map);
    let linked = moves.iter().filter(|&&m| m != 0).count();
    assert_eq!(linked + 1, opens, "not every open cell is reachable from the start");
}

#[test]
fn generated_maze_has_walled_border_and_pillars() {
    let mut rng = fixed_source();
    let maze = maze_of(5, 5);
    let map = maze.generate(&mut rng);
    check_structure(&map, 5, 5);
}

#[test]
fn generated_maze_is_perfect() {
    let mut rng = fixed_source();
    let maze = maze_of(5, 5);
    let map = maze.generate(&mut rng);
    check_perfect(&map, 5, 5);

    let mut rng2 = FixedRandom::new(vec![7, 2, 9, 0, 4, 4, 8, 1, 6, 3, 2, 5]);
    let maze2 = maze_of(9, 7);
    let map2 = maze2.generate(&mut rng2);
    check_structure(&map2, 9, 7);
    check_perfect(&map2, 9, 7);
}

#[test]
fn larger_generated_maze_is_perfect() {
    let mut rng = FixedRandom::new(vec![17, 3, 12, 8, 1, 0, 9, 14, 6, 2, 11, 5, 4, 13, 7, 10]);
    let maze = maze_of(15, 13);
    let map = maze.generate(&mut rng);
    check_structure(&map, 15, 13);
    check_perfect(&map, 15, 13);
    let dfs = solver_of(15, 13);
    let moves = dfs.solve(&map);
    let path = dfs.ans_route(&moves).unwrap();
    assert_eq!((path[0].y, path[0].x), (1, 1));
}

#[test]
fn generated_maze_with_thread_randomness_is_perfect() {
    let mut rng = ThreadRandom;
    let maze = maze_of(11, 9);
    let map = maze.generate(&mut rng);
    check_structure(&map, 11, 9);
    check_perfect(&map, 11, 9);
}

#[test]
fn five_by_five_scenario() {
    let mut rng = fixed_source();
    let maze = maze_of(5, 5);
    assert_eq!(MazeHelper::check_input(5), 5);
    let map = maze.generate(&mut rng);
    check_structure(&map, 5, 5);
    check_perfect(&map, 5, 5);
    // the start and the goal are open
    assert!(!map[3][3]);
    assert!(!map[1][1]);
    // the solver finds a non-empty route from the goal back toward the start
    let dfs = solver_of(5, 5);
    let moves = dfs.solve(&map);
    let path = dfs.ans_route(&moves).unwrap();
    assert!(!path.is_empty());
}

#[test]
fn generation_is_deterministic_under_a_fixed_source() {
    let maze = maze_of(9, 9);
    let mut rng1 = fixed_source();
    let mut rng2 = fixed_source();
    let map1 = maze.generate(&mut rng1);
    let map2 = maze.generate(&mut rng2);
    assert_eq!(map1, map2);

    let mut rng3 = FixedRandom::new(vec![11, 0, 7, 5, 13, 2, 3, 1]);
    let mut rng4 = FixedRandom::new(vec![11, 0, 7, 5, 13, 2, 3, 1]);
    assert_eq!(maze.generate(&mut rng3), maze.generate(&mut rng4));
}

#[test]
fn solved_route_steps_through_open_neighbors() {
    let mut rng = fixed_source();
    let maze = maze_of(9, 7);
    let map = maze.generate(&mut rng);
    let dfs = solver_of(9, 7);
    let moves = dfs.solve(&map);
    let path = dfs.ans_route(&moves).unwrap();

    // the route begins at the goal
    assert_eq!((path[0].y, path[0].x), (1, 1));
    // every cell on the route is open, and the start is not on it
    for c in &path {
        assert!(!map[c.y][c.x]);
        assert!(!(c.y == 7 && c.x == 5));
    }
    // consecutive route cells are cardinal neighbors
    for k in 0..path.len() - 1 {
        let (y1, x1) = (path[k].y as i64, path[k].x as i64);
        let (y2, x2) = (path[k + 1].y as i64, path[k + 1].x as i64);
        assert_eq!((y1 - y2).abs() + (x1 - x2).abs(), 1);
    }
    // the route ends on a cardinal neighbor of the start
    let last = path.last().unwrap();
    let (ly, lx) = (last.y as i64, last.x as i64);
    assert_eq!((ly - 7).abs() + (lx - 5).abs(), 1);
    // the route never has more entries than the grid has cells
    assert!(path.len() <= 9 * 7);
}

#[test]
fn route_reconstruction_fails_on_an_unreached_goal() {
    // every cell is a wall but the start, so the goal is never reached
    let mut map = vec![vec![true; 5]; 5];
    map[3][3] = false;
    let dfs = solver_of(5, 5);
    let moves = dfs.solve(&map);
    assert!(moves.iter().all(|&m| m == 0));
    assert_eq!(dfs.ans_route(&moves).unwrap_err(), MazeError::DisconnectedGoal);
}

#[test]
fn even_random_draws_even_values_below_the_bound() {
    let mut rng = fixed_source();
    for max in 1..30usize {
        let r = MazeHelper::even_random(&mut rng, max);
        assert_eq!(r % 2, 0);
        assert!(r < max);
    }
    let mut thread = ThreadRandom;
    for _ in 0..50 {
        let r = MazeHelper::even_random(&mut thread, 9);
        assert_eq!(r % 2, 0);
        assert!(r < 9);
    }
}

#[test]
fn thread_randomness_stays_below_the_bound() {
    let mut rng = ThreadRandom;
    let mut seen_distinct = false;
    let first = rng.below(1000);
    for _ in 0..200 {
        let r = rng.below(1000);
        assert!(r < 1000);
        if r != first {
            seen_distinct = true;
        }
    }
    assert!(seen_distinct, "two hundred draws never differed");
    assert_eq!(rng.below(1), 0);
}

#[test]
fn fixed_randomness_cycles_through_its_values() {
    let mut rng = FixedRandom::new(vec![4, 7, 2]);
    assert_eq!(rng.below(10), 4);
    assert_eq!(rng.below(10), 7);
    assert_eq!(rng.below(10), 2);
    assert_eq!(rng.below(10), 4);
    assert_eq!(rng.below(3), 1);
    let mut empty = FixedRandom::new(vec![]);
    assert_eq!(empty.below(5), 0);
}

#[test]
fn maze_serialize_renders_every_cell() {
    let maze = maze_of(5, 5);
    let map = MazeHelper::empty_map(5, 5, true, false);
    let text = maze.serialize(&map, "#", ".", "S", "G");
    assert_eq!(text, "#####\n#G..#\n#...#\n#..S#\n#####\n");
}

#[test]
fn solver_serialize_overlays_the_route() {
    let dfs = solver_of(5, 5);
    let map = MazeHelper::empty_map(5, 5, true, false);
    let route = vec![Coord::new(2, 1)];
    let text = dfs.serialize(&map, &route, "#", ".", "S", "G", "*");
    assert_eq!(text, "#####\n#G..#\n#*..#\n#..S#\n#####\n");
}

#[test]
fn solver_serialize_prefers_walls_over_route_cells() {
    let dfs = solver_of(5, 5);
    let map = MazeHelper::empty_map(5, 5, true, false);
    // a route entry on a wall cell keeps the wall glyph
    let route = vec![Coord::new(2, 0), Coord::new(2, 2)];
    let text = dfs.serialize(&map, &route, "#", ".", "S", "G", "*");
    assert_eq!(text, "#####\n#G..#\n#.*.#\n#..S#\n#####\n");
}
