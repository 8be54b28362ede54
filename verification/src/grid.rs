//! The wall/open grid and its coordinate utilities: dimension
//! normalization, grid allocation, bounds and parity classification, and
//! the flat encoding of two-dimensional coordinates.

use vstd::prelude::*;

verus! {

/// A grid coordinate: `y` is the row, `x` is the column.
#[derive(Clone, Copy, PartialEq, Eq, Structural, Debug)]
pub struct Coord {
    pub y: usize,
    pub x: usize,
}

/// A rectangular grid of cells; `true` is a wall, `false` is open.
pub type MazeMap = Vec<Vec<bool>>;

/// A sequence of grid coordinates: a carve stack, or a solved route.
pub type Coords = Vec<Coord>;

/// The sequence-of-rows view of a grid.
pub open spec fn grid_of(m: &MazeMap) -> Seq<Seq<bool>> {
    Seq::new(m@.len(), |i: int| m@[i]@)
}

/// The grid is a rectangle of `h` rows, each `w` cells wide.
pub open spec fn wf_grid(g: Seq<Seq<bool>>, h: int, w: int) -> bool {
    g.len() == h && (forall|y: int| 0 <= y < h ==> (#[trigger] g[y]).len() == w)
}

/// The cell lies on the outermost row or column of an `h` by `w` grid.
pub open spec fn on_border(y: int, x: int, h: int, w: int) -> bool {
    y == 0 || y == h - 1 || x == 0 || x == w - 1
}

/// What `empty_map(h, w, edge_fill, even_pillar)` puts at `(y, x)`.
pub open spec fn empty_cell(y: int, x: int, h: int, w: int, edge_fill: bool, even_pillar: bool) -> bool {
    if on_border(y, x, h, w) && edge_fill {
        true
    } else if y % 2 == 0 && x % 2 == 0 && !on_border(y, x, h, w) && even_pillar {
        true
    } else {
        false
    }
}

/// The failure kinds of the library: a dimension that no normalization can
/// mend, a goal the search never reached, and a coordinate outside the grid.
#[derive(Clone, Copy, PartialEq, Eq, Structural, Debug)]
pub enum MazeError {
    InvalidDimension,
    DisconnectedGoal,
    OutOfBounds,
}

/// What dimension normalization returns: an even value is bumped by one,
/// an odd value under five becomes five.
pub open spec fn normalize_dim(n: int) -> int {
    if n % 2 == 0 {
        n + 1
    } else if n < 5 {
        5
    } else {
        n
    }
}

/// Dimension normalization yields an odd value of at least five and is
/// idempotent. The inputs zero and two are the exceptions: they normalize
/// to one and three, which a second pass would move again.
pub proof fn lemma_normalize_dim(n: int)
    requires
        n >= 0,
        n != 0,
        n != 2,
    ensures
        normalize_dim(n) % 2 == 1,
        normalize_dim(n) >= 5,
        normalize_dim(normalize_dim(n)) == normalize_dim(n),
{
}

/// Some cell with value `state` lies in a row strictly before `rows`.
pub open spec fn grid_has_below(g: Seq<Seq<bool>>, state: bool, rows: int) -> bool {
    exists|i: int, j: int| 0 <= i < rows && 0 <= j < g[i].len() && #[trigger] g[i][j] == state
}

/// Some cell with value `state` lies strictly before column `cols` of the row.
pub open spec fn row_has_below(row: Seq<bool>, state: bool, cols: int) -> bool {
    exists|j: int| 0 <= j < cols && #[trigger] row[j] == state
}

/// Scanning one more cell of a row extends `row_has_below` by that cell.
pub proof fn lemma_row_has_step(row: Seq<bool>, state: bool, x: int)
    requires
        0 <= x < row.len(),
    ensures
        row_has_below(row, state, x + 1) == (row_has_below(row, state, x) || row[x] == state),
{
    if row_has_below(row, state, x) {
        let j = choose|j: int| 0 <= j < x && #[trigger] row[j] == state;
        assert(0 <= j < x + 1 && row[j] == state);
    }
    if row[x] == state {
        assert(0 <= x < x + 1 && row[x] == state);
    }
    if row_has_below(row, state, x + 1) {
        let j = choose|j: int| 0 <= j < x + 1 && #[trigger] row[j] == state;
        if j < x {
            assert(row_has_below(row, state, x));
        }
    }
}

/// Scanning one more full row extends `grid_has_below` by that row.
pub proof fn lemma_grid_has_step(g: Seq<Seq<bool>>, state: bool, y: int)
    requires
        0 <= y < g.len(),
    ensures
        grid_has_below(g, state, y + 1)
            == (grid_has_below(g, state, y) || row_has_below(g[y], state, g[y].len() as int)),
{
    if grid_has_below(g, state, y) {
        let (i, j) = choose|i: int, j: int|
            0 <= i < y && 0 <= j < g[i].len() && #[trigger] g[i][j] == state;
        assert(0 <= i < y + 1 && 0 <= j < g[i].len() && g[i][j] == state);
    }
    if row_has_below(g[y], state, g[y].len() as int) {
        let j = choose|j: int| 0 <= j < g[y].len() && #[trigger] g[y][j] == state;
        assert(0 <= y < y + 1 && 0 <= j < g[y].len() && g[y][j] == state);
    }
    if grid_has_below(g, state, y + 1) {
        let (i, j) = choose|i: int, j: int|
            0 <= i < y + 1 && 0 <= j < g[i].len() && #[trigger] g[i][j] == state;
        if i < y {
            assert(grid_has_below(g, state, y));
        } else {
            assert(0 <= j < g[y].len() && g[y][j] == state);
            assert(row_has_below(g[y], state, g[y].len() as int));
        }
    }
}

/// The two cells are cardinal neighbors: they differ by one in exactly one
/// coordinate.
pub open spec fn adjacent(y1: int, x1: int, y2: int, x2: int) -> bool {
    (y1 == y2 && (x1 == x2 + 1 || x1 + 1 == x2)) || (x1 == x2 && (y1 == y2 + 1 || y1 + 1 == y2))
}

/// Some entry of `s` has row `y` and column `x`.
pub open spec fn coords_contain(s: Seq<Coord>, y: int, x: int) -> bool {
    exists|i: int| 0 <= i < s.len() && (#[trigger] s[i]).y == y && s[i].x == x
}

impl Coord {
    pub fn new(y: usize, x: usize) -> (c: Coord)
        ensures
            c.y == y,
            c.x == x,
    {
        Coord { y, x }
    }
}

pub struct MazeHelper;

impl MazeHelper {
    /// Allocates an `height` by `width` grid of open cells; walls the border
    /// when `edge_fill`, and walls every pillar cell (both coordinates even)
    /// strictly inside the border when `even_pillar`.
    pub fn empty_map(height: usize, width: usize, edge_fill: bool, even_pillar: bool) -> (m: MazeMap)
        ensures
            wf_grid(grid_of(&m), height as int, width as int),
            forall|y: int, x: int|
                0 <= y < height && 0 <= x < width
                    ==> #[trigger] grid_of(&m)[y][x]
                        == empty_cell(y, x, height as int, width as int, edge_fill, even_pillar),
    {
        let mut map: MazeMap = Vec::new();
        for y in 0..height
            invariant
                map@.len() == y,
                forall|i: int| 0 <= i < y ==> (#[trigger] map@[i])@.len() == width,
                forall|i: int, j: int|
                    0 <= i < y && 0 <= j < width
                        ==> #[trigger] map@[i]@[j]
                            == empty_cell(i, j, height as int, width as int, edge_fill, even_pillar),
        {
            let mut row: Vec<bool> = Vec::new();
            for x in 0..width
                invariant
                    y < height,
                    row@.len() == x,
                    forall|j: int|
                        0 <= j < x
                            ==> #[trigger] row@[j]
                                == empty_cell(y as int, j, height as int, width as int, edge_fill, even_pillar),
            {
                let border = y == 0 || y == height - 1 || x == 0 || x == width - 1;
                let cell: bool = if border && edge_fill {
                    true
                } else if y % 2 == 0 && x % 2 == 0 && !border && even_pillar {
                    true
                } else {
                    false
                };
                row.push(cell);
            }
            map.push(row);
        }
        map
    }

    /// Normalizes a requested dimension: an even value is bumped by one, an
    /// odd value under five becomes five. The result is always odd, and at
    /// least five except for the inputs zero and two.
    pub fn check_input(input: usize) -> (r: usize)
        ensures
            r % 2 == 1,
            input != 0 && input != 2 ==> r >= 5,
            r == normalize_dim(input as int),
    {
        if input % 2 == 0 {
            input + 1
        } else if input < 5 {
            5
        } else {
            input
        }
    }

    /// Whether any cell of `map` holds the value `state`.
    pub fn is_available(map: &MazeMap, state: bool) -> (r: bool)
        ensures
            r == grid_has_below(grid_of(map), state, map@.len() as int),
    {
        let mut is_available = false;
        let height = map.len();
        for y in 0..height
            invariant
                height == map@.len(),
                is_available == grid_has_below(grid_of(map), state, y as int),
        {
            let width = map[y].len();
            for x in 0..width
                invariant
                    height == map@.len(),
                    y < height,
                    width == map@[y as int]@.len(),
                    is_available == (grid_has_below(grid_of(map), state, y as int)
                        || row_has_below(grid_of(map)[y as int], state, x as int)),
            {
                if map[y][x] == state {
                    is_available = true;
                }
                proof {
                    lemma_row_has_step(grid_of(map)[y as int], state, x as int);
                }
            }
            proof {
                lemma_grid_has_step(grid_of(map), state, y as int);
            }
        }
        is_available
    }

    /// Whether the coordinate `(y, x)` occurs in `wall_coords`.
    pub fn is_coord_included(y: usize, x: usize, wall_coords: &Coords) -> (r: bool)
        ensures
            r == coords_contain(wall_coords@, y as int, x as int),
    {
        let mut is_coord_included = false;
        let n = wall_coords.len();
        for i in 0..n
            invariant
                n == wall_coords@.len(),
                is_coord_included == coords_contain(wall_coords@.subrange(0, i as int), y as int, x as int),
        {
            let coord = &wall_coords[i];
            if coord.y == y && coord.x == x {
                is_coord_included = true;
            }
            proof {
                let pre = wall_coords@.subrange(0, i as int);
                let cur = wall_coords@.subrange(0, i + 1 as int);
                assert(forall|k: int| 0 <= k < pre.len() ==> pre[k] == #[trigger] cur[k]);
                assert(cur[i as int] == wall_coords@[i as int]);
            }
        }
        proof {
            assert(wall_coords@.subrange(0, n as int) =~= wall_coords@);
        }
        is_coord_included
    }

    /// Flattens a coordinate to `constant * y + x`.
    pub fn encode_coord(coord: &Coord, constant: usize) -> (r: usize)
        requires
            constant * coord.y + coord.x <= usize::MAX,
        ensures
            r == constant * coord.y + coord.x,
    {
        constant * coord.y + coord.x
    }

    /// Recovers the coordinate whose flat encoding is `encode_coord`.
    pub fn decode_encoded_coord(encode_coord: usize, constant: usize) -> (c: Coord)
        requires
            constant >= 1,
        ensures
            c.y == encode_coord as int / constant as int,
            c.x == encode_coord as int % constant as int,
    {
        Coord::new(encode_coord / constant, encode_coord % constant)
    }
}

} // verus!
