use maze::grid::{Coord, MazeError, MazeHelper};
use maze::maze::Maze;

#[test]
fn check_input_bumps_even_values() {
    assert_eq!(MazeHelper::check_input(4), 5);
    assert_eq!(MazeHelper::check_input(6), 7);
    assert_eq!(MazeHelper::check_input(100), 101);
}

#[test]
fn check_input_raises_small_odd_values() {
    assert_eq!(MazeHelper::check_input(1), 5);
    assert_eq!(MazeHelper::check_input(3), 5);
}

#[test]
fn check_input_bumps_zero_and_two_below_five() {
    // the two inputs whose normalization stays under five
    assert_eq!(MazeHelper::check_input(0), 1);
    assert_eq!(MazeHelper::check_input(2), 3);
}

#[test]
fn check_input_keeps_large_odd_values() {
    assert_eq!(MazeHelper::check_input(5), 5);
    assert_eq!(MazeHelper::check_input(7), 7);
    assert_eq!(MazeHelper::check_input(17), 17);
}

#[test]
fn check_input_is_odd_and_at_least_five() {
    for n in 3..60usize {
        let r = MazeHelper::check_input(n);
        assert_eq!(r % 2, 1);
        assert!(r >= 5);
    }
}

#[test]
fn check_input_is_idempotent() {
    for n in [1usize, 3, 4, 5, 6, 7, 10, 11, 40, 99] {
        let once = MazeHelper::check_input(n);
        assert_eq!(MazeHelper::check_input(once), once);
    }
}

#[test]
fn maze_new_rejects_zero_and_two() {
    assert_eq!(Maze::new(0, 5).unwrap_err(), MazeError::InvalidDimension);
    assert_eq!(Maze::new(2, 7).unwrap_err(), MazeError::InvalidDimension);
    assert_eq!(Maze::new(5, 0).unwrap_err(), MazeError::InvalidDimension);
    assert_eq!(Maze::new(9, 2).unwrap_err(), MazeError::InvalidDimension);
}

#[test]
fn maze_new_normalizes_dimensions() {
    let m = Maze::new(4, 6).unwrap();
    assert_eq!(m.height, 5);
    assert_eq!(m.width, 7);
    assert_eq!(m.start.y, 3);
    assert_eq!(m.start.x, 5);
    assert_eq!(m.goal.y, 1);
    assert_eq!(m.goal.x, 1);
}

#[test]
fn empty_map_with_edge_fill_walls_only_the_border() {
    let map = MazeHelper::empty_map(5, 7, true, false);
    assert_eq!(map.len(), 5);
    for (y, row) in map.iter().enumerate() {
        assert_eq!(row.len(), 7);
        for (x, &cell) in row.iter().enumerate() {
            let border = y == 0 || y == 4 || x == 0 || x == 6;
            assert_eq!(cell, border);
        }
    }
}

#[test]
fn empty_map_with_even_pillar_walls_interior_pillars() {
    let map = MazeHelper::empty_map(5, 5, false, true);
    for y in 0..5 {
        for x in 0..5 {
            let border = y == 0 || y == 4 || x == 0 || x == 4;
            assert_eq!(map[y][x], y % 2 == 0 && x % 2 == 0 && !border);
        }
    }
    // a 5 by 5 grid has exactly one interior pillar, at its center
    let marked: usize = map.iter().map(|r| r.iter().filter(|&&c| c).count()).sum();
    assert_eq!(marked, 1);
    // a 7 by 7 grid has the four interior pillars of its middle block
    let map7 = MazeHelper::empty_map(7, 7, false, true);
    let marked7: usize = map7.iter().map(|r| r.iter().filter(|&&c| c).count()).sum();
    assert_eq!(marked7, 4);
    assert!(map7[2][2] && map7[2][4] && map7[4][2] && map7[4][4]);
    assert!(!map7[0][0] && !map7[0][2] && !map7[6][6]);
}

#[test]
fn empty_map_without_flags_is_all_open() {
    let map = MazeHelper::empty_map(6, 4, false, false);
    assert!(map.iter().all(|row| row.iter().all(|&c| !c)));
}

#[test]
fn encode_and_decode_are_inverse() {
    let c = Coord::new(2, 3);
    let e = MazeHelper::encode_coord(&c, 7);
    assert_eq!(e, 17);
    let back = MazeHelper::decode_encoded_coord(e, 7);
    assert_eq!(back.y, 2);
    assert_eq!(back.x, 3);
}

#[test]
fn decode_splits_by_the_constant() {
    let c = MazeHelper::decode_encoded_coord(11, 5);
    assert_eq!((c.y, c.x), (2, 1));
}

#[test]
fn is_available_finds_a_matching_cell() {
    let mut map = vec![vec![false; 3]; 3];
    assert!(!MazeHelper::is_available(&map, true));
    assert!(MazeHelper::is_available(&map, false));
    map[2][1] = true;
    assert!(MazeHelper::is_available(&map, true));
    let all_wall = vec![vec![true; 2]; 2];
    assert!(!MazeHelper::is_available(&all_wall, false));
}

#[test]
fn is_coord_included_checks_every_entry() {
    let coords = vec![Coord::new(1, 2), Coord::new(3, 4)];
    assert!(MazeHelper::is_coord_included(1, 2, &coords));
    assert!(MazeHelper::is_coord_included(3, 4, &coords));
    assert!(!MazeHelper::is_coord_included(2, 1, &coords));
    assert!(!MazeHelper::is_coord_included(0, 0, &coords));
    let empty: Vec<Coord> = vec![];
    assert!(!MazeHelper::is_coord_included(0, 0, &empty));
}
