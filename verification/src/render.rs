//! Text rendering of a grid, and of a grid overlaid with a solved route:
//! every cell becomes one glyph, rows are separated by newlines, and the
//! start, the goal and the route take precedence over plain wall and road
//! glyphs.

use vstd::prelude::*;
use crate::grid::{Coord, Coords, MazeMap, MazeHelper, grid_of, wf_grid, coords_contain};
use crate::maze::Maze;
use crate::solver::MazeSolverDfs;

verus! {

/// The glyph the plain maze rendering puts at `(y, x)`: the start and goal
/// glyphs take precedence, then walls, then roads.
pub open spec fn maze_cell_str(
    g: Seq<Seq<bool>>, sy: int, sx: int, gy: int, gx: int,
    wall: Seq<char>, road: Seq<char>, start: Seq<char>, goal: Seq<char>,
    y: int, x: int,
) -> Seq<char> {
    if y == sy && x == sx {
        start
    } else if y == gy && x == gx {
        goal
    } else if g[y][x] {
        wall
    } else {
        road
    }
}

/// The first `cols` glyphs of row `y` of the plain maze rendering.
pub open spec fn maze_row_str(
    g: Seq<Seq<bool>>, sy: int, sx: int, gy: int, gx: int,
    wall: Seq<char>, road: Seq<char>, start: Seq<char>, goal: Seq<char>,
    y: int, cols: nat,
) -> Seq<char>
    decreases cols,
{
    if cols == 0 {
        Seq::empty()
    } else {
        maze_row_str(g, sy, sx, gy, gx, wall, road, start, goal, y, (cols - 1) as nat)
            + maze_cell_str(g, sy, sx, gy, gx, wall, road, start, goal, y, cols - 1)
    }
}

/// The first `rows` lines of the plain maze rendering, each of `cols`
/// glyphs and a closing newline.
pub open spec fn maze_str(
    g: Seq<Seq<bool>>, sy: int, sx: int, gy: int, gx: int,
    wall: Seq<char>, road: Seq<char>, start: Seq<char>, goal: Seq<char>,
    rows: nat, cols: nat,
) -> Seq<char>
    decreases rows,
{
    if rows == 0 {
        Seq::empty()
    } else {
        maze_str(g, sy, sx, gy, gx, wall, road, start, goal, (rows - 1) as nat, cols)
            + maze_row_str(g, sy, sx, gy, gx, wall, road, start, goal, rows - 1, cols)
            + "\n"@
    }
}

impl Maze {
    /// Renders the grid as text: one glyph per cell, rows closed by
    /// newlines; the start and the goal show their own glyphs, every other
    /// cell shows the wall or the road glyph.
    pub fn serialize(&self, map: &MazeMap, wall: &str, road: &str, start: &str, goal: &str) -> (r: String)
        requires
            wf_grid(grid_of(map), self.height as int, self.width as int),
        ensures
            r@ == maze_str(grid_of(map), self.start.y as int, self.start.x as int,
                self.goal.y as int, self.goal.x as int,
                wall@, road@, start@, goal@, self.height as nat, self.width as nat),
    {
        let height = self.height;
        let width = self.width;
        let ghost g = grid_of(map);
        let ghost sy = self.start.y as int;
        let ghost sx = self.start.x as int;
        let ghost gy = self.goal.y as int;
        let ghost gx = self.goal.x as int;

        let mut map_str = String::new();

        for y in 0..height
            invariant
                height == self.height && width == self.width,
                g == grid_of(map),
                wf_grid(g, height as int, width as int),
                sy == self.start.y && sx == self.start.x,
                gy == self.goal.y && gx == self.goal.x,
                map_str@ == maze_str(g, sy, sx, gy, gx, wall@, road@, start@, goal@,
                    y as nat, width as nat),
        {
            proof {
                crate::maze::lemma_grid_dims(map, height as int, width as int);
            }
            for x in 0..width
                invariant
                    height == self.height && width == self.width,
                    g == grid_of(map),
                    wf_grid(g, height as int, width as int),
                    y < height,
                    map@.len() == height,
                    forall|i: int| 0 <= i < height ==> (#[trigger] map@[i])@.len() == width,
                    sy == self.start.y && sx == self.start.x,
                    gy == self.goal.y && gx == self.goal.x,
                    map_str@ == maze_str(g, sy, sx, gy, gx, wall@, road@, start@, goal@,
                        y as nat, width as nat)
                        + maze_row_str(g, sy, sx, gy, gx, wall@, road@, start@, goal@,
                            y as int, x as nat),
            {
                let ghost pre = map_str@;
                let ghost cell = maze_cell_str(g, sy, sx, gy, gx, wall@, road@, start@, goal@,
                    y as int, x as int);
                if y == self.start.y && x == self.start.x {
                    map_str.append(start);
                } else if y == self.goal.y && x == self.goal.x {
                    map_str.append(goal);
                } else if map[y][x] {
                    map_str.append(wall);
                } else {
                    map_str.append(road);
                }
                proof {
                    assert(map_str@ == pre + cell);
                    assert(map_str@ =~= maze_str(g, sy, sx, gy, gx, wall@, road@, start@, goal@,
                        y as nat, width as nat)
                        + maze_row_str(g, sy, sx, gy, gx, wall@, road@, start@, goal@,
                            y as int, (x + 1) as nat));
                }
            }
            map_str.append("\n");
            proof {
                assert(map_str@ =~= maze_str(g, sy, sx, gy, gx, wall@, road@, start@, goal@,
                    (y + 1) as nat, width as nat));
            }
        }
        map_str
    }
}

/// The glyph the solved-route rendering puts at `(y, x)`: the start and
/// goal glyphs take precedence, then walls, then the route glyph on route
/// cells, then roads.
pub open spec fn route_cell_str(
    g: Seq<Seq<bool>>, mv: Seq<Coord>, sy: int, sx: int, gy: int, gx: int,
    wall: Seq<char>, road: Seq<char>, start: Seq<char>, goal: Seq<char>, ans: Seq<char>,
    y: int, x: int,
) -> Seq<char> {
    if y == sy && x == sx {
        start
    } else if y == gy && x == gx {
        goal
    } else if g[y][x] {
        wall
    } else if coords_contain(mv, y, x) {
        ans
    } else {
        road
    }
}

/// The first `cols` glyphs of row `y` of the solved-route rendering.
pub open spec fn route_row_str(
    g: Seq<Seq<bool>>, mv: Seq<Coord>, sy: int, sx: int, gy: int, gx: int,
    wall: Seq<char>, road: Seq<char>, start: Seq<char>, goal: Seq<char>, ans: Seq<char>,
    y: int, cols: nat,
) -> Seq<char>
    decreases cols,
{
    if cols == 0 {
        Seq::empty()
    } else {
        route_row_str(g, mv, sy, sx, gy, gx, wall, road, start, goal, ans, y, (cols - 1) as nat)
            + route_cell_str(g, mv, sy, sx, gy, gx, wall, road, start, goal, ans, y, cols - 1)
    }
}

/// The first `rows` lines of the solved-route rendering, each of `cols`
/// glyphs and a closing newline.
pub open spec fn route_str(
    g: Seq<Seq<bool>>, mv: Seq<Coord>, sy: int, sx: int, gy: int, gx: int,
    wall: Seq<char>, road: Seq<char>, start: Seq<char>, goal: Seq<char>, ans: Seq<char>,
    rows: nat, cols: nat,
) -> Seq<char>
    decreases rows,
{
    if rows == 0 {
        Seq::empty()
    } else {
        route_str(g, mv, sy, sx, gy, gx, wall, road, start, goal, ans, (rows - 1) as nat, cols)
            + route_row_str(g, mv, sy, sx, gy, gx, wall, road, start, goal, ans, rows - 1, cols)
            + "\n"@
    }
}

impl MazeSolverDfs {
    /// Renders the grid with the solved route overlaid: the start and the
    /// goal show their own glyphs, walls the wall glyph, cells on the route
    /// the route glyph, and every other cell the road glyph.
    pub fn serialize(
        &self,
        map: &MazeMap,
        moves: &Coords,
        wall: &str,
        road: &str,
        start: &str,
        goal: &str,
        ans: &str,
    ) -> (r: String)
        requires
            self.height >= 1,
            wf_grid(grid_of(map), self.height as int, self.width as int),
        ensures
            r@ == route_str(grid_of(map), moves@,
                self.start.y as int, self.start.x as int, self.goal.y as int, self.goal.x as int,
                wall@, road@, start@, goal@, ans@, self.height as nat, self.width as nat),
    {
        let ghost g = grid_of(map);
        let ghost hh = self.height as int;
        let ghost ww = self.width as int;
        let ghost sy = self.start.y as int;
        let ghost sx = self.start.x as int;
        let ghost gy = self.goal.y as int;
        let ghost gx = self.goal.x as int;

        let height = map.len();
        let width = map[0].len();
        proof {
            assert(grid_of(map)[0].len() == ww);
            assert(height as int == hh && width as int == ww);
        }

        let mut move_map: MazeMap = MazeHelper::empty_map(height, width, false, false);
        for y in 0..height
            invariant
                height as int == hh && width as int == ww,
                wf_grid(grid_of(&move_map), hh, ww),
                forall|i: int, j: int|
                    0 <= i < y && 0 <= j < ww
                        ==> #[trigger] grid_of(&move_map)[i][j] == coords_contain(moves@, i, j),
                forall|i: int, j: int|
                    y <= i < hh && 0 <= j < ww ==> !(#[trigger] grid_of(&move_map)[i][j]),
        {
            proof {
                crate::maze::lemma_grid_dims(&move_map, hh, ww);
            }
            for x in 0..width
                invariant
                    height as int == hh && width as int == ww,
                    y < height,
                    wf_grid(grid_of(&move_map), hh, ww),
                    move_map@.len() == hh,
                    forall|i: int| 0 <= i < hh ==> (#[trigger] move_map@[i])@.len() == ww,
                    forall|i: int, j: int|
                        0 <= i < y && 0 <= j < ww
                            ==> #[trigger] grid_of(&move_map)[i][j] == coords_contain(moves@, i, j),
                    forall|j: int|
                        0 <= j < x ==> #[trigger] grid_of(&move_map)[y as int][j]
                            == coords_contain(moves@, y as int, j),
                    forall|j: int|
                        x <= j < ww ==> !(#[trigger] grid_of(&move_map)[y as int][j]),
                    forall|i: int, j: int|
                        y < i < hh && 0 <= j < ww ==> !(#[trigger] grid_of(&move_map)[i][j]),
            {
                let ghost before = grid_of(&move_map);
                if MazeHelper::is_coord_included(y, x, moves) {
                    move_map[y][x] = true;
                }
                proof {
                    assert forall|i: int, j: int|
                        0 <= i < hh && 0 <= j < ww && !(i == y as int && j == x as int)
                        implies #[trigger] grid_of(&move_map)[i][j] == before[i][j] by {}
                }
            }
        }

        let mut map_str = String::new();
        proof {
            crate::maze::lemma_grid_dims(map, hh, ww);
            crate::maze::lemma_grid_dims(&move_map, hh, ww);
        }

        for y in 0..height
            invariant
                height as int == hh && width as int == ww,
                g == grid_of(map),
                wf_grid(g, hh, ww),
                map@.len() == hh,
                forall|i: int| 0 <= i < hh ==> (#[trigger] map@[i])@.len() == ww,
                wf_grid(grid_of(&move_map), hh, ww),
                move_map@.len() == hh,
                forall|i: int| 0 <= i < hh ==> (#[trigger] move_map@[i])@.len() == ww,
                forall|i: int, j: int|
                    0 <= i < hh && 0 <= j < ww
                        ==> #[trigger] grid_of(&move_map)[i][j] == coords_contain(moves@, i, j),
                hh == self.height && ww == self.width,
                sy == self.start.y && sx == self.start.x,
                gy == self.goal.y && gx == self.goal.x,
                map_str@ == route_str(g, moves@, sy, sx, gy, gx,
                    wall@, road@, start@, goal@, ans@, y as nat, ww as nat),
        {
            for x in 0..width
                invariant
                    height as int == hh && width as int == ww,
                    y < height,
                    g == grid_of(map),
                    wf_grid(g, hh, ww),
                    map@.len() == hh,
                    forall|i: int| 0 <= i < hh ==> (#[trigger] map@[i])@.len() == ww,
                    wf_grid(grid_of(&move_map), hh, ww),
                    move_map@.len() == hh,
                    forall|i: int| 0 <= i < hh ==> (#[trigger] move_map@[i])@.len() == ww,
                    forall|i: int, j: int|
                        0 <= i < hh && 0 <= j < ww
                            ==> #[trigger] grid_of(&move_map)[i][j] == coords_contain(moves@, i, j),
                    hh == self.height && ww == self.width,
                    sy == self.start.y && sx == self.start.x,
                    gy == self.goal.y && gx == self.goal.x,
                    map_str@ == route_str(g, moves@, sy, sx, gy, gx,
                        wall@, road@, start@, goal@, ans@, y as nat, ww as nat)
                        + route_row_str(g, moves@, sy, sx, gy, gx,
                            wall@, road@, start@, goal@, ans@, y as int, x as nat),
            {
                let ghost pre = map_str@;
                let ghost cell = route_cell_str(g, moves@, sy, sx, gy, gx,
                    wall@, road@, start@, goal@, ans@, y as int, x as int);
                if y == self.start.y && x == self.start.x {
                    map_str.append(start);
                } else if y == self.goal.y && x == self.goal.x {
                    map_str.append(goal);
                } else if map[y][x] {
                    map_str.append(wall);
                } else if move_map[y][x] {
                    map_str.append(ans);
                } else {
                    map_str.append(road);
                }
                proof {
                    assert(grid_of(&move_map)[y as int][x as int] == move_map@[y as int]@[x as int]);
                    assert(map_str@ == pre + cell);
                    assert(map_str@ =~= route_str(g, moves@, sy, sx, gy, gx,
                        wall@, road@, start@, goal@, ans@, y as nat, ww as nat)
                        + route_row_str(g, moves@, sy, sx, gy, gx,
                            wall@, road@, start@, goal@, ans@, y as int, (x + 1) as nat));
                }
            }
            map_str.append("\n");
            proof {
                assert(map_str@ =~= route_str(g, moves@, sy, sx, gy, gx,
                    wall@, road@, start@, goal@, ans@, (y + 1) as nat, ww as nat));
            }
        }
        map_str
    }
}

} // verus!
