//! The maze generator: a randomized carve-and-backtrack walk over the
//! lattice of pillar cells. Every walk starts at a pillar that is still
//! open, extends the wall structure two cells at a time, and ends when it
//! reaches a wall that already stands or exhausts its backtrack stack.
//! Each walk carves one connected piece of wall. Backtracking drops
//! pillars from the walk's self-intersection stack, so on rare draw
//! sequences a walk rejoins its own wall; the carved loop then rings a
//! corridor cell off from the rest of the corridors.

use vstd::prelude::*;
use crate::grid::{
    Coord, Coords, MazeMap, MazeError, MazeHelper, grid_of, wf_grid, on_border, coords_contain,
    normalize_dim, empty_cell, adjacent,
};
use crate::rng::RandomSource;

verus! {

/// Both dimensions are odd and at least five.
pub open spec fn dims_ok(h: int, w: int) -> bool {
    h % 2 == 1 && w % 2 == 1 && h >= 5 && w >= 5
}

/// Every cell on the outermost rows and columns is a wall.
pub open spec fn border_walled(g: Seq<Seq<bool>>, h: int, w: int) -> bool {
    forall|y: int, x: int|
        0 <= y < h && 0 <= x < w && on_border(y, x, h, w) ==> #[trigger] g[y][x]
}

/// Every walled connector cell stands between two walled pillar cells: a
/// connector is only ever carved together with the pillars at its ends.
pub open spec fn connectors_joined(g: Seq<Seq<bool>>, h: int, w: int) -> bool {
    (forall|y: int, x: int|
        0 <= y < h && 0 <= x < w && y % 2 == 1 && x % 2 == 0 && y + 1 < h && #[trigger] g[y][x]
            ==> g[y - 1][x] && g[y + 1][x])
    && (forall|y: int, x: int|
        0 <= y < h && 0 <= x < w && y % 2 == 0 && x % 2 == 1 && x + 1 < w && #[trigger] g[y][x]
            ==> g[y][x - 1] && g[y][x + 1])
}

/// No wall has been removed between the two grids.
pub open spec fn walls_kept(g1: Seq<Seq<bool>>, g2: Seq<Seq<bool>>, h: int, w: int) -> bool {
    forall|y: int, x: int| 0 <= y < h && 0 <= x < w && #[trigger] g1[y][x] ==> #[trigger] g2[y][x]
}

/// Cells with two odd coordinates are equal in the two grids: carving only
/// touches pillars and connectors, never the cells between four pillars.
pub open spec fn odd_cells_kept(g1: Seq<Seq<bool>>, g2: Seq<Seq<bool>>, h: int, w: int) -> bool {
    forall|y: int, x: int|
        0 <= y < h && 0 <= x < w && y % 2 == 1 && x % 2 == 1
            ==> #[trigger] g1[y][x] == #[trigger] g2[y][x]
}

/// Every entry is a pillar coordinate strictly inside the border.
pub open spec fn stack_ok(s: Seq<Coord>, h: int, w: int) -> bool {
    forall|i: int|
        0 <= i < s.len()
            ==> (#[trigger] s[i]).y % 2 == 0 && s[i].x % 2 == 0
                && 2 <= s[i].y <= h - 3 && 2 <= s[i].x <= w - 3
}

/// The number of open cells in one row.
pub open spec fn row_open_count(row: Seq<bool>) -> nat
    decreases row.len(),
{
    if row.len() == 0 {
        0
    } else {
        row_open_count(row.drop_last()) + if row.last() { 0nat } else { 1nat }
    }
}

/// The number of open cells in the grid.
pub open spec fn open_count(g: Seq<Seq<bool>>) -> nat
    decreases g.len(),
{
    if g.len() == 0 {
        0
    } else {
        open_count(g.drop_last()) + row_open_count(g.last())
    }
}

/// Walling one cell of a row lowers its open count by one if the cell was
/// open, and changes nothing if it already was a wall.
pub proof fn lemma_row_open_count_update(row: Seq<bool>, x: int)
    requires
        0 <= x < row.len(),
    ensures
        row_open_count(row.update(x, true))
            == row_open_count(row) - (if row[x] { 0nat } else { 1nat }),
    decreases row.len(),
{
    let row2 = row.update(x, true);
    if x == row.len() - 1 {
        assert(row2.drop_last() =~= row.drop_last());
    } else {
        assert(row2.drop_last() =~= row.drop_last().update(x, true));
        lemma_row_open_count_update(row.drop_last(), x);
    }
}

/// Walling one cell of the grid lowers the grid's open count by one if the
/// cell was open, and changes nothing if it already was a wall.
pub proof fn lemma_open_count_update(g: Seq<Seq<bool>>, y: int, x: int)
    requires
        0 <= y < g.len(),
        0 <= x < g[y].len(),
    ensures
        open_count(g.update(y, g[y].update(x, true)))
            == open_count(g) - (if g[y][x] { 0nat } else { 1nat }),
    decreases g.len(),
{
    let g2 = g.update(y, g[y].update(x, true));
    if y == g.len() - 1 {
        assert(g2.drop_last() =~= g.drop_last());
        lemma_row_open_count_update(g[y], x);
    } else {
        assert(g2.drop_last() =~= g.drop_last().update(y, g[y].update(x, true)));
        assert(g2.last() =~= g.last());
        lemma_open_count_update(g.drop_last(), y, x);
    }
}

/// A grid that differs from `g1` in a single cell, walled in `g2`, has the
/// open count of `g1` less one if that cell was open in `g1`.
pub proof fn lemma_open_count_single_change(g1: Seq<Seq<bool>>, g2: Seq<Seq<bool>>, y: int, x: int)
    requires
        g2.len() == g1.len(),
        forall|i: int| 0 <= i < g1.len() ==> (#[trigger] g2[i]).len() == g1[i].len(),
        0 <= y < g1.len(),
        0 <= x < g1[y].len(),
        g2[y][x] == true,
        forall|i: int, j: int|
            0 <= i < g1.len() && 0 <= j < g1[i].len() && !(i == y && j == x)
                ==> #[trigger] g2[i][j] == g1[i][j],
    ensures
        open_count(g2) == open_count(g1) - (if g1[y][x] { 0nat } else { 1nat }),
{
    assert(g2 =~~= g1.update(y, g1[y].update(x, true)));
    lemma_open_count_update(g1, y, x);
}

/// A carving direction. `Up` and `Down` move along rows, `Right` moves
/// toward smaller column indices and `Left` toward larger ones.
#[derive(Clone, Copy, PartialEq, Eq, Structural, Debug)]
pub enum Direction {
    Up,
    Down,
    Right,
    Left,
}

/// The walk may carve from `(y, x)` toward `d`: the connector one step that
/// way is open, and the pillar two steps that way is not on the carve stack.
pub open spec fn dir_admissible(g: Seq<Seq<bool>>, stack: Seq<Coord>, y: int, x: int, d: Direction) -> bool {
    match d {
        Direction::Up => !g[y - 1][x] && !coords_contain(stack, y - 2, x),
        Direction::Down => !g[y + 1][x] && !coords_contain(stack, y + 2, x),
        Direction::Right => !g[y][x - 1] && !coords_contain(stack, y, x - 2),
        Direction::Left => !g[y][x + 1] && !coords_contain(stack, y, x + 2),
    }
}

/// `g2` differs from `g1` at most at `(y, x)`, which it walls.
pub open spec fn walled_one(g1: Seq<Seq<bool>>, g2: Seq<Seq<bool>>, h: int, w: int, y: int, x: int) -> bool {
    g2.len() == h
    && (forall|i: int| 0 <= i < h ==> (#[trigger] g2[i]).len() == g1[i].len())
    && g2[y][x] == true
    && (forall|i: int, j: int|
        0 <= i < h && 0 <= j < w && !(i == y && j == x) ==> #[trigger] g2[i][j] == g1[i][j])
}

/// Walling one more cell keeps every wall that stood, and keeps every cell
/// with two odd coordinates as it was when the walled cell is not such one.
pub proof fn lemma_walled_one_kept(g1: Seq<Seq<bool>>, g2: Seq<Seq<bool>>, h: int, w: int, y: int, x: int)
    requires
        wf_grid(g1, h, w),
        0 <= y < h,
        0 <= x < w,
        walled_one(g1, g2, h, w, y, x),
        y % 2 == 0 || x % 2 == 0,
    ensures
        walls_kept(g1, g2, h, w),
        odd_cells_kept(g1, g2, h, w),
{
    assert forall|i: int, j: int| 0 <= i < h && 0 <= j < w && #[trigger] g1[i][j]
        implies #[trigger] g2[i][j] by {
        if i == y && j == x {
        } else {
            assert(g2[i][j] == g1[i][j]);
        }
    };
    assert forall|i: int, j: int| 0 <= i < h && 0 <= j < w && i % 2 == 1 && j % 2 == 1
        implies #[trigger] g1[i][j] == #[trigger] g2[i][j] by {
        assert(!(i == y && j == x));
    };
}

/// Walls kept over two steps are kept over their composition.
pub proof fn lemma_walls_kept_trans(a: Seq<Seq<bool>>, b: Seq<Seq<bool>>, c: Seq<Seq<bool>>, h: int, w: int)
    requires
        walls_kept(a, b, h, w),
        walls_kept(b, c, h, w),
    ensures
        walls_kept(a, c, h, w),
{
    assert forall|y: int, x: int| 0 <= y < h && 0 <= x < w && #[trigger] a[y][x]
        implies #[trigger] c[y][x] by {
        assert(b[y][x]);
    };
}

/// Odd-odd cells kept over two steps are kept over their composition.
pub proof fn lemma_odd_cells_kept_trans(a: Seq<Seq<bool>>, b: Seq<Seq<bool>>, c: Seq<Seq<bool>>, h: int, w: int)
    requires
        odd_cells_kept(a, b, h, w),
        odd_cells_kept(b, c, h, w),
    ensures
        odd_cells_kept(a, c, h, w),
{
    assert forall|y: int, x: int| 0 <= y < h && 0 <= x < w && y % 2 == 1 && x % 2 == 1
        implies #[trigger] a[y][x] == #[trigger] c[y][x] by {
        assert(a[y][x] == b[y][x]);
        assert(b[y][x] == c[y][x]);
    };
}

/// Walling a cell that is not a connector leaves every walled connector
/// with both of its end pillars walled.
pub proof fn lemma_cj_wall_noncon(g1: Seq<Seq<bool>>, g2: Seq<Seq<bool>>, h: int, w: int, y: int, x: int)
    requires
        wf_grid(g1, h, w),
        connectors_joined(g1, h, w),
        0 <= y < h,
        0 <= x < w,
        y % 2 == x % 2,
        walled_one(g1, g2, h, w, y, x),
    ensures
        connectors_joined(g2, h, w),
{
    assert forall|i: int, j: int|
        0 <= i < h && 0 <= j < w && i % 2 == 1 && j % 2 == 0 && i + 1 < h && #[trigger] g2[i][j]
        implies g2[i - 1][j] && g2[i + 1][j] by {
        assert(!(i == y && j == x));
        assert(g1[i][j]);
        assert(g1[i - 1][j] && g1[i + 1][j]);
        if !(i - 1 == y && j == x) {
            assert(g2[i - 1][j] == g1[i - 1][j]);
        }
        if !(i + 1 == y && j == x) {
            assert(g2[i + 1][j] == g1[i + 1][j]);
        }
    };
    assert forall|i: int, j: int|
        0 <= i < h && 0 <= j < w && i % 2 == 0 && j % 2 == 1 && j + 1 < w && #[trigger] g2[i][j]
        implies g2[i][j - 1] && g2[i][j + 1] by {
        assert(!(i == y && j == x));
        assert(g1[i][j]);
        assert(g1[i][j - 1] && g1[i][j + 1]);
        if !(i == y && j - 1 == x) {
            assert(g2[i][j - 1] == g1[i][j - 1]);
        }
        if !(i == y && j + 1 == x) {
            assert(g2[i][j + 1] == g1[i][j + 1]);
        }
    };
}

/// A walk through walled cells: every step moves to a cardinal neighbor,
/// and every cell on the walk is inside the grid and walled.
pub open spec fn is_wall_path(g: Seq<Seq<bool>>, h: int, w: int, p: Seq<(int, int)>) -> bool {
    p.len() >= 1
    && (forall|k: int|
        0 <= k < p.len()
            ==> 0 <= (#[trigger] p[k]).0 < h && 0 <= p[k].1 < w && g[p[k].0][p[k].1])
    && (forall|k: int|
        0 <= k < p.len() - 1
            ==> adjacent((#[trigger] p[k]).0, p[k].1, p[k + 1].0, p[k + 1].1))
}

/// The cells `(sy, sx)` and `(ty, tx)` are joined by a walk through walled
/// cells.
#[verifier::opaque]
pub open spec fn wall_connected(g: Seq<Seq<bool>>, h: int, w: int, sy: int, sx: int, ty: int, tx: int) -> bool {
    exists|p: Seq<(int, int)>|
        is_wall_path(g, h, w, p) && p.first() == (sy, sx) && p.last() == (ty, tx)
}

/// A walled in-bounds cell is wall-connected to itself.
pub proof fn lemma_wall_connected_self(g: Seq<Seq<bool>>, h: int, w: int, y: int, x: int)
    requires
        0 <= y < h,
        0 <= x < w,
        g[y][x],
    ensures
        wall_connected(g, h, w, y, x, y, x),
{
    reveal(wall_connected);
    let p: Seq<(int, int)> = seq![(y, x)];
    assert(is_wall_path(g, h, w, p));
    assert(p.first() == (y, x) && p.last() == (y, x));
}

/// Wall connectivity extends across one step to an adjacent walled cell.
pub proof fn lemma_wall_connected_extend(
    g: Seq<Seq<bool>>, h: int, w: int, sy: int, sx: int, ty: int, tx: int, uy: int, ux: int,
)
    requires
        wall_connected(g, h, w, sy, sx, ty, tx),
        adjacent(ty, tx, uy, ux),
        0 <= uy < h,
        0 <= ux < w,
        g[uy][ux],
    ensures
        wall_connected(g, h, w, sy, sx, uy, ux),
{
    reveal(wall_connected);
    let p = choose|p: Seq<(int, int)>|
        is_wall_path(g, h, w, p) && p.first() == (sy, sx) && p.last() == (ty, tx);
    let p2 = p.push((uy, ux));
    assert(p2.last() == (uy, ux));
    assert(p2.first() == (sy, sx));
    assert forall|k: int| 0 <= k < p2.len() - 1
        implies adjacent((#[trigger] p2[k]).0, p2[k].1, p2[k + 1].0, p2[k + 1].1) by {
        if k < p.len() - 1 {
            assert(p2[k] == p[k] && p2[k + 1] == p[k + 1]);
        } else {
            assert(p2[k] == p.last() && p2[k + 1] == (uy, ux));
        }
    };
    assert(is_wall_path(g, h, w, p2));
}

/// A walk through walled cells survives the walling of further cells.
pub proof fn lemma_wall_connected_mono(
    g1: Seq<Seq<bool>>, g2: Seq<Seq<bool>>, h: int, w: int, sy: int, sx: int, ty: int, tx: int,
)
    requires
        wall_connected(g1, h, w, sy, sx, ty, tx),
        walls_kept(g1, g2, h, w),
    ensures
        wall_connected(g2, h, w, sy, sx, ty, tx),
{
    reveal(wall_connected);
    let p = choose|p: Seq<(int, int)>|
        is_wall_path(g1, h, w, p) && p.first() == (sy, sx) && p.last() == (ty, tx);
    assert forall|k: int| 0 <= k < p.len()
        implies 0 <= (#[trigger] p[k]).0 < h && 0 <= p[k].1 < w && g2[p[k].0][p[k].1] by {
        assert(g1[p[k].0][p[k].1]);
    };
    assert(is_wall_path(g2, h, w, p));
}

/// Wall connectivity is transitive: two walks joined end to start make one.
pub proof fn lemma_wall_connected_trans(
    g: Seq<Seq<bool>>, h: int, w: int, ay: int, ax: int, by: int, bx: int, cy: int, cx: int,
)
    requires
        wall_connected(g, h, w, ay, ax, by, bx),
        wall_connected(g, h, w, by, bx, cy, cx),
    ensures
        wall_connected(g, h, w, ay, ax, cy, cx),
{
    reveal(wall_connected);
    let p1 = choose|p: Seq<(int, int)>|
        is_wall_path(g, h, w, p) && p.first() == (ay, ax) && p.last() == (by, bx);
    let p2 = choose|p: Seq<(int, int)>|
        is_wall_path(g, h, w, p) && p.first() == (by, bx) && p.last() == (cy, cx);
    if p2.len() == 1 {
        assert(p1.last() == (cy, cx));
        assert(wall_connected(g, h, w, ay, ax, cy, cx));
    } else {
        let p = p1 + p2.subrange(1, p2.len() as int);
        assert(p.len() == p1.len() + p2.len() - 1);
        assert(p.first() == (ay, ax));
        assert(p.last() == p2.last());
        assert forall|k: int| 0 <= k < p.len()
            implies 0 <= (#[trigger] p[k]).0 < h && 0 <= p[k].1 < w && g[p[k].0][p[k].1] by {
            if k < p1.len() {
                assert(p[k] == p1[k]);
            } else {
                assert(p[k] == p2[k - p1.len() + 1]);
            }
        };
        assert forall|k: int| 0 <= k < p.len() - 1
            implies adjacent((#[trigger] p[k]).0, p[k].1, p[k + 1].0, p[k + 1].1) by {
            if k + 1 < p1.len() {
                assert(p[k] == p1[k] && p[k + 1] == p1[k + 1]);
            } else if k + 1 == p1.len() {
                assert(p[k] == p1[k] && p1[k] == p1.last());
                assert(p[k + 1] == p2[1]);
                assert(adjacent(p2[0].0, p2[0].1, p2[1].0, p2[1].1));
            } else {
                assert(p[k] == p2[k - p1.len() + 1] && p[k + 1] == p2[k - p1.len() + 2]);
            }
        };
        assert(is_wall_path(g, h, w, p));
    }
}

/// Walls stay walls, so a walled border stays walled.
pub proof fn lemma_border_kept(g1: Seq<Seq<bool>>, g2: Seq<Seq<bool>>, h: int, w: int)
    requires
        border_walled(g1, h, w),
        walls_kept(g1, g2, h, w),
    ensures
        border_walled(g2, h, w),
{
    assert forall|y: int, x: int| 0 <= y < h && 0 <= x < w && on_border(y, x, h, w)
        implies #[trigger] g2[y][x] by {
        assert(g1[y][x]);
    };
}

/// Pushing an entry keeps everything the sequence contained, and makes it
/// contain the pushed coordinate.
pub proof fn lemma_contain_push(s: Seq<Coord>, c: Coord, i: int, j: int)
    requires
        coords_contain(s, i, j) || (c.y == i && c.x == j),
    ensures
        coords_contain(s.push(c), i, j),
{
    if coords_contain(s, i, j) {
        let k = choose|k: int| 0 <= k < s.len() && (#[trigger] s[k]).y == i && s[k].x == j;
        assert(s.push(c)[k] == s[k]);
    } else {
        assert(s.push(c)[s.len() as int] == c);
    }
}

/// Removing by swap keeps every contained coordinate other than the one
/// whose entry was removed.
pub proof fn lemma_contain_swap_remove(s: Seq<Coord>, s2: Seq<Coord>, idx: int, i: int, j: int)
    requires
        0 <= idx < s.len(),
        s2 == s.update(idx, s.last()).drop_last(),
        coords_contain(s, i, j),
        !(s[idx].y == i && s[idx].x == j),
    ensures
        coords_contain(s2, i, j),
{
    let k = choose|k: int| 0 <= k < s.len() && (#[trigger] s[k]).y == i && s[k].x == j;
    if k == s.len() - 1 {
        assert(s2[idx] == s[k]);
    } else {
        assert(s2[k] == s[k]);
    }
}

/// Every interior pillar coordinate in the scanned region, the rows before
/// `rows` and the first `cols` cells of row `rows`, occurs in the sequence.
pub open spec fn pillars_pending_upto(s: Seq<Coord>, rows: int, cols: int, h: int, w: int) -> bool {
    forall|i: int, j: int|
        0 <= i && 0 <= j && ((i < rows && j < w) || (i == rows && j < cols))
            && i % 2 == 0 && j % 2 == 0 && !on_border(i, j, h, w)
            ==> #[trigger] coords_contain(s, i, j)
}

/// Restates a grid's well-formedness over the vector itself, so that the
/// bounds of element accesses follow directly.
pub proof fn lemma_grid_dims(m: &MazeMap, h: int, w: int)
    requires
        wf_grid(grid_of(m), h, w),
    ensures
        m@.len() == h,
        forall|i: int| 0 <= i < h ==> (#[trigger] m@[i])@.len() == w,
{
    assert forall|i: int| 0 <= i < h implies (#[trigger] m@[i])@.len() == w by {
        assert(grid_of(m)[i].len() == w);
    };
}

/// One whole carve step: from the grid `g_top` at the top of the loop, the
/// walk walls the current pillar `(y0, x0)` (grid `g_a`), then the connector
/// `(cy, cx)` toward the drawn direction (grid `g_b`), then the pillar
/// `(py, px)` two cells away (grid `g_c`). The step preserves the grid
/// invariants and lowers the number of open cells, because the connector
/// was open before the step.
pub proof fn lemma_carve_step(
    g_top: Seq<Seq<bool>>, g_a: Seq<Seq<bool>>, g_b: Seq<Seq<bool>>, g_c: Seq<Seq<bool>>,
    h: int, w: int, y0: int, x0: int, cy: int, cx: int, py: int, px: int,
)
    requires
        dims_ok(h, w),
        wf_grid(g_top, h, w),
        border_walled(g_top, h, w),
        connectors_joined(g_top, h, w),
        y0 % 2 == 0 && x0 % 2 == 0,
        2 <= y0 <= h - 3 && 2 <= x0 <= w - 3,
        (cx == x0 && px == x0 && py == 2 * cy - y0 && (cy == y0 - 1 || cy == y0 + 1))
            || (cy == y0 && py == y0 && px == 2 * cx - x0 && (cx == x0 - 1 || cx == x0 + 1)),
        !g_top[cy][cx],
        walled_one(g_top, g_a, h, w, y0, x0),
        walled_one(g_a, g_b, h, w, cy, cx),
        walled_one(g_b, g_c, h, w, py, px),
    ensures
        wf_grid(g_c, h, w),
        border_walled(g_c, h, w),
        connectors_joined(g_c, h, w),
        walls_kept(g_top, g_c, h, w),
        odd_cells_kept(g_top, g_c, h, w),
        open_count(g_c) < open_count(g_top),
        !g_top[y0][x0] ==> open_count(g_c) + 2 <= open_count(g_top),
        g_c[y0][x0],
        g_c[py][px],
        g_c[cy][cx],
        adjacent(y0, x0, cy, cx),
        forall|i: int, j: int|
            0 <= i < h && 0 <= j < w && #[trigger] g_c[i][j] && !g_top[i][j]
                ==> wall_connected(g_c, h, w, y0, x0, i, j),
{
    // shapes
    assert(wf_grid(g_a, h, w));
    assert(wf_grid(g_b, h, w));
    assert(wf_grid(g_c, h, w));
    // walls and odd-odd cells are kept at each of the three steps
    lemma_walled_one_kept(g_top, g_a, h, w, y0, x0);
    lemma_walled_one_kept(g_a, g_b, h, w, cy, cx);
    lemma_walled_one_kept(g_b, g_c, h, w, py, px);
    lemma_walls_kept_trans(g_top, g_a, g_b, h, w);
    lemma_walls_kept_trans(g_top, g_b, g_c, h, w);
    lemma_odd_cells_kept_trans(g_top, g_a, g_b, h, w);
    lemma_odd_cells_kept_trans(g_top, g_b, g_c, h, w);
    lemma_border_kept(g_top, g_c, h, w);
    // the walled connector stands between two walled pillars
    lemma_cj_wall_noncon(g_top, g_a, h, w, y0, x0);
    assert(g_c[y0][x0]);
    assert(g_c[py][px]);
    assert(g_c[cy][cx]);
    assert forall|i: int, j: int|
        0 <= i < h && 0 <= j < w && !(i == cy && j == cx) && !(i == py && j == px)
        implies #[trigger] g_c[i][j] == g_a[i][j] by {
        assert(g_b[i][j] == g_a[i][j]);
        assert(g_c[i][j] == g_b[i][j]);
    };
    assert forall|i: int, j: int|
        0 <= i < h && 0 <= j < w && i % 2 == 1 && j % 2 == 0 && i + 1 < h && #[trigger] g_c[i][j]
        implies g_c[i - 1][j] && g_c[i + 1][j] by {
        if i == cy && j == cx {
            assert(cy % 2 == 1 && cx % 2 == 0);
            assert(g_c[cy - 1][cx] && g_c[cy + 1][cx]);
        } else {
            assert(!(i == py && j == px));
            assert(g_a[i][j]);
            assert(g_a[i - 1][j] && g_a[i + 1][j]);
            assert(walls_kept(g_a, g_c, h, w));
        }
    };
    assert forall|i: int, j: int|
        0 <= i < h && 0 <= j < w && i % 2 == 0 && j % 2 == 1 && j + 1 < w && #[trigger] g_c[i][j]
        implies g_c[i][j - 1] && g_c[i][j + 1] by {
        if i == cy && j == cx {
            assert(cy % 2 == 0 && cx % 2 == 1);
            assert(g_c[cy][cx - 1] && g_c[cy][cx + 1]);
        } else {
            assert(!(i == py && j == px));
            assert(g_a[i][j]);
            assert(g_a[i][j - 1] && g_a[i][j + 1]);
            assert(walls_kept(g_a, g_c, h, w));
        }
    };
    // the connector was still open after the current pillar was walled
    assert(!g_a[cy][cx]);
    lemma_open_count_single_change(g_top, g_a, y0, x0);
    lemma_open_count_single_change(g_a, g_b, cy, cx);
    lemma_open_count_single_change(g_b, g_c, py, px);
    // the three cells the step walls form one walk hanging off the current
    // pillar, so every newly walled cell is wall-connected to it
    lemma_wall_connected_self(g_c, h, w, y0, x0);
    lemma_wall_connected_extend(g_c, h, w, y0, x0, y0, x0, cy, cx);
    lemma_wall_connected_extend(g_c, h, w, y0, x0, cy, cx, py, px);
    assert forall|i: int, j: int|
        0 <= i < h && 0 <= j < w && #[trigger] g_c[i][j] && !g_top[i][j]
        implies wall_connected(g_c, h, w, y0, x0, i, j) by {
        if i == y0 && j == x0 {
            assert(wall_connected(g_c, h, w, y0, x0, y0, x0));
        } else if i == cy && j == cx {
            assert(wall_connected(g_c, h, w, y0, x0, cy, cx));
        } else if i == py && j == px {
            assert(wall_connected(g_c, h, w, y0, x0, py, px));
        } else {
            assert(g_c[i][j] == g_a[i][j]);
            assert(g_a[i][j] == g_top[i][j]);
        }
    };
}

/// The rectangular maze: its dimensions and the fixed start and goal.
#[derive(Debug)]
pub struct Maze {
    pub height: usize,
    pub width: usize,
    pub start: Coord,
    pub goal: Coord,
}

impl Maze {
    /// The dimensions are normalized, their product fits the flat encoding,
    /// the start is two cells in from the bottom-right corner, and the goal
    /// is the cell just inside the top-left corner.
    pub open spec fn wf(&self) -> bool {
        dims_ok(self.height as int, self.width as int)
        && self.height * self.width <= usize::MAX
        && self.start.y == self.height - 2 && self.start.x == self.width - 2
        && self.goal.y == 1 && self.goal.x == 1
    }

    /// Builds a maze with normalized dimensions. Fails with
    /// `InvalidDimension` when a dimension of zero or two is given (those
    /// normalize below five) or when the normalized grid would not fit the
    /// flat coordinate encoding.
    pub fn new(height: usize, width: usize) -> (r: Result<Maze, MazeError>)
        ensures
            match r {
                Ok(m) => {
                    &&& m.wf()
                    &&& m.height == normalize_dim(height as int)
                    &&& m.width == normalize_dim(width as int)
                },
                Err(e) => {
                    &&& e == MazeError::InvalidDimension
                    &&& (height == 0 || height == 2 || width == 0 || width == 2
                        || normalize_dim(height as int) * normalize_dim(width as int) > usize::MAX)
                },
            },
    {
        if height == 0 || height == 2 || width == 0 || width == 2 {
            return Err(MazeError::InvalidDimension);
        }
        let h = MazeHelper::check_input(height);
        let w = MazeHelper::check_input(width);
        if h.checked_mul(w).is_none() {
            return Err(MazeError::InvalidDimension);
        }
        Ok(Maze {
            height: h,
            width: w,
            start: Coord::new(h - 2, w - 2),
            goal: Coord::new(1, 1),
        })
    }

    /// Walls the cell at `(y, x)`, and records it on the carve stack when it
    /// is a pillar cell (both coordinates even).
    pub fn set_wall(y: usize, x: usize, map: &mut MazeMap, wall_coords: &mut Coords)
        requires
            y < grid_of(old(map)).len(),
            x < grid_of(old(map))[y as int].len(),
        ensures
            grid_of(final(map)).len() == grid_of(old(map)).len(),
            forall|i: int|
                0 <= i < grid_of(old(map)).len()
                    ==> (#[trigger] grid_of(final(map))[i]).len() == grid_of(old(map))[i].len(),
            grid_of(final(map))[y as int][x as int] == true,
            forall|i: int, j: int|
                0 <= i < grid_of(old(map)).len() && 0 <= j < grid_of(old(map))[i].len()
                    && !(i == y && j == x)
                    ==> #[trigger] grid_of(final(map))[i][j] == grid_of(old(map))[i][j],
            final(wall_coords)@ == if y % 2 == 0 && x % 2 == 0 {
                old(wall_coords)@.push(Coord { y, x })
            } else {
                old(wall_coords)@
            },
    {
        map[y][x] = true;
        if x % 2 == 0 && y % 2 == 0 {
            wall_coords.push(Coord::new(y, x));
        }
    }

    /// One carve advance of the walk: walls the current pillar `(y, x)`,
    /// draws a direction among the admissible ones, walls the connector and
    /// the pillar two cells that way, and reports the new position together
    /// with whether that pillar was already walled before the advance.
    /// Every cell the advance walls is wall-connected to `(y, x)`.
    #[verifier::rlimit(50)]
    fn carve_from<R: RandomSource>(
        rng: &mut R,
        y: usize,
        x: usize,
        map: &mut MazeMap,
        wall_coords: &mut Coords,
        directions: &Vec<Direction>,
    ) -> (r: (usize, usize, bool))
        requires
            ({
                let g = grid_of(old(map));
                let h = g.len() as int;
                let w = g[0].len() as int;
                &&& dims_ok(h, w)
                &&& h <= usize::MAX && w <= usize::MAX
                &&& wf_grid(g, h, w)
                &&& border_walled(g, h, w)
                &&& connectors_joined(g, h, w)
                &&& y % 2 == 0 && x % 2 == 0
                &&& 2 <= y as int && (y as int) <= h - 3
                &&& 2 <= x as int && (x as int) <= w - 3
                &&& stack_ok(old(wall_coords)@, h, w)
                &&& directions@.len() > 0
                &&& forall|i: int|
                    0 <= i < directions@.len()
                        ==> dir_admissible(g, old(wall_coords)@, y as int, x as int, #[trigger] directions@[i])
            }),
        ensures
            ({
                let g0 = grid_of(old(map));
                let g = grid_of(final(map));
                let h = g0.len() as int;
                let w = g0[0].len() as int;
                let ny = r.0;
                let nx = r.1;
                let is_wall = r.2;
                &&& wf_grid(g, h, w)
                &&& border_walled(g, h, w)
                &&& connectors_joined(g, h, w)
                &&& walls_kept(g0, g, h, w)
                &&& odd_cells_kept(g0, g, h, w)
                &&& open_count(g) < open_count(g0)
                &&& (!g0[y as int][x as int] ==> open_count(g) + 2 <= open_count(g0))
                &&& g[y as int][x as int]
                &&& g[ny as int][nx as int]
                &&& (exists|cy: int, cx: int|
                    0 <= cy < h && 0 <= cx < w && adjacent(y as int, x as int, cy, cx)
                        && #[trigger] g[cy][cx] && !g0[cy][cx])
                &&& ny % 2 == 0 && nx % 2 == 0
                &&& (ny as int) < h
                &&& (nx as int) < w
                &&& (!is_wall ==> 2 <= ny as int && (ny as int) <= h - 3 && 2 <= nx as int && (nx as int) <= w - 3)
                &&& (!is_wall ==> !g0[ny as int][nx as int])
                &&& final(wall_coords)@.len() == old(wall_coords)@.len() + 2
                &&& (forall|t: int|
                    0 <= t < old(wall_coords)@.len()
                        ==> #[trigger] final(wall_coords)@[t] == old(wall_coords)@[t])
                &&& final(wall_coords)@[old(wall_coords)@.len() as int] == (Coord { y, x })
                &&& final(wall_coords)@[old(wall_coords)@.len() as int + 1] == (Coord { y: ny, x: nx })
                &&& (forall|i: int, j: int|
                    0 <= i < h && 0 <= j < w && #[trigger] g[i][j] && !g0[i][j]
                        ==> wall_connected(g, h, w, y as int, x as int, i, j))
            }),
    {
        let ghost g_top = grid_of(map);
        let ghost stack_top = wall_coords@;
        let ghost h = g_top.len() as int;
        let ghost w = g_top[0].len() as int;

        Maze::set_wall(y, x, map, wall_coords);
        let ghost g_a = grid_of(map);
        proof {
            assert(wf_grid(g_a, h, w));
            lemma_grid_dims(map, h, w);
        }

        let mut is_wall = false;
        let mut ny = y;
        let mut nx = x;
        let random_index = rng.below(directions.len());
        let dir = directions[random_index];
        proof {
            assert(dir_admissible(g_top, stack_top, y as int, x as int, dir));
        }
        let ghost y0 = y as int;
        let ghost x0 = x as int;
        match dir {
            Direction::Up => {
                is_wall = map[y - 2][x];
                ny -= 1;
                Maze::set_wall(ny, nx, map, wall_coords);
                let ghost g_b = grid_of(map);
                ny -= 1;
                Maze::set_wall(ny, nx, map, wall_coords);
                proof {
                    lemma_carve_step(g_top, g_a, g_b, grid_of(map), h, w,
                        y0, x0, y0 - 1, x0, y0 - 2, x0);
                }
            }
            Direction::Down => {
                is_wall = map[y + 2][x];
                ny += 1;
                Maze::set_wall(ny, nx, map, wall_coords);
                let ghost g_b = grid_of(map);
                ny += 1;
                Maze::set_wall(ny, nx, map, wall_coords);
                proof {
                    lemma_carve_step(g_top, g_a, g_b, grid_of(map), h, w,
                        y0, x0, y0 + 1, x0, y0 + 2, x0);
                }
            }
            Direction::Right => {
                is_wall = map[y][x - 2];
                nx -= 1;
                Maze::set_wall(ny, nx, map, wall_coords);
                let ghost g_b = grid_of(map);
                nx -= 1;
                Maze::set_wall(ny, nx, map, wall_coords);
                proof {
                    lemma_carve_step(g_top, g_a, g_b, grid_of(map), h, w,
                        y0, x0, y0, x0 - 1, y0, x0 - 2);
                }
            }
            Direction::Left => {
                is_wall = map[y][x + 2];
                nx += 1;
                Maze::set_wall(ny, nx, map, wall_coords);
                let ghost g_b = grid_of(map);
                nx += 1;
                Maze::set_wall(ny, nx, map, wall_coords);
                proof {
                    lemma_carve_step(g_top, g_a, g_b, grid_of(map), h, w,
                        y0, x0, y0, x0 + 1, y0, x0 + 2);
                }
            }
        }
        proof {
            if !is_wall {
                // the pillar the walk moved to was open before the advance,
                // so it stands strictly inside the walled border
                assert(!g_a[ny as int][nx as int]);
                assert(g_a[ny as int][nx as int] == g_top[ny as int][nx as int]);
                assert(!on_border(ny as int, nx as int, h, w));
            }
        }
        (ny, nx, is_wall)
    }

    /// One carve walk from the open pillar `(_y, _x)`: walls the current
    /// pillar, carves two cells toward a direction drawn among the
    /// admissible ones, and backtracks along the carve stack at dead ends.
    /// The walk ends on reaching a wall that already stood, or with the
    /// stack exhausted. Afterwards the starting pillar is walled, the grid
    /// invariants still hold, and only pillars and connectors were carved.
    /// The walk always completes its first advance: at least two cells were
    /// open and are now walled, one of them a connector adjacent to the
    /// starting pillar. Every cell the walk has walled is joined to the
    /// walk's starting pillar by a walk through walled cells: the carving
    /// grows one connected piece of wall, and each advance ends the walk
    /// the moment the pillar it reaches was already walled.
    pub fn extend_wall<R: RandomSource>(
        rng: &mut R,
        _y: usize,
        _x: usize,
        map: &mut MazeMap,
        wall_coords: &mut Coords,
    )
        requires
            ({
                let g = grid_of(old(map));
                let h = g.len() as int;
                let w = g[0].len() as int;
                &&& dims_ok(h, w)
                &&& wf_grid(g, h, w)
                &&& border_walled(g, h, w)
                &&& connectors_joined(g, h, w)
                &&& _y % 2 == 0 && _x % 2 == 0
                &&& (_y as int) < h && (_x as int) < w
                &&& !g[_y as int][_x as int]
                &&& old(wall_coords)@.len() == 0
            }),
        ensures
            ({
                let g0 = grid_of(old(map));
                let g = grid_of(final(map));
                let h = g0.len() as int;
                let w = g0[0].len() as int;
                &&& wf_grid(g, h, w)
                &&& border_walled(g, h, w)
                &&& connectors_joined(g, h, w)
                &&& walls_kept(g0, g, h, w)
                &&& odd_cells_kept(g0, g, h, w)
                &&& g[_y as int][_x as int]
                &&& open_count(g) + 2 <= open_count(g0)
                &&& (exists|cy: int, cx: int|
                    0 <= cy < h && 0 <= cx < w && adjacent(_y as int, _x as int, cy, cx)
                        && #[trigger] g[cy][cx] && !g0[cy][cx])
                &&& (forall|i: int, j: int|
                    0 <= i < h && 0 <= j < w && #[trigger] g[i][j] && !g0[i][j]
                        ==> wall_connected(g, h, w, _y as int, _x as int, i, j))
            }),
    {
        let ghost g0 = grid_of(map);
        let height = map.len();
        let row0 = &map[0];
        let width = row0.len();
        let ghost h = height as int;
        let ghost w = width as int;

        let mut x = _x;
        let mut y = _y;

        proof {
            assert(grid_of(map)[0] == row0@);
            // the starting pillar is open, so it stands strictly inside the
            // walled border, and being even it is at least two cells in
            assert(!on_border(_y as int, _x as int, h, w));
        }

        loop
            invariant_except_break
                y % 2 == 0 && x % 2 == 0,
                2 <= y as int && (y as int) <= h - 3 && 2 <= x as int && (x as int) <= w - 3,
                stack_ok(wall_coords@, h, w),
                (y == _y && x == _x && wall_coords@.len() == 0 && grid_of(map) == g0)
                    || (grid_of(map)[_y as int][_x as int]
                        && grid_of(map)[y as int][x as int] && !g0[y as int][x as int]
                        && open_count(grid_of(map)) + 2 <= open_count(g0)
                        && (exists|cy: int, cx: int|
                            0 <= cy < h && 0 <= cx < w && adjacent(_y as int, _x as int, cy, cx)
                                && #[trigger] grid_of(map)[cy][cx] && !g0[cy][cx])),
                forall|t: int|
                    0 <= t < wall_coords@.len()
                        ==> grid_of(map)[((#[trigger] wall_coords@[t]).y) as int][(wall_coords@[t].x) as int]
                            && !g0[(wall_coords@[t].y) as int][(wall_coords@[t].x) as int],
            invariant
                dims_ok(h, w),
                h <= usize::MAX && w <= usize::MAX,
                wf_grid(grid_of(map), h, w),
                border_walled(grid_of(map), h, w),
                connectors_joined(grid_of(map), h, w),
                walls_kept(g0, grid_of(map), h, w),
                odd_cells_kept(g0, grid_of(map), h, w),
                _y % 2 == 0 && _x % 2 == 0,
                2 <= _y as int && (_y as int) <= h - 3 && 2 <= _x as int && (_x as int) <= w - 3,
                !g0[_y as int][_x as int],
                forall|i: int, j: int|
                    0 <= i < h && 0 <= j < w && #[trigger] grid_of(map)[i][j] && !g0[i][j]
                        ==> wall_connected(grid_of(map), h, w, _y as int, _x as int, i, j),
            ensures
                grid_of(map)[_y as int][_x as int],
                open_count(grid_of(map)) + 2 <= open_count(g0),
                (exists|cy: int, cx: int|
                    0 <= cy < h && 0 <= cx < w && adjacent(_y as int, _x as int, cy, cx)
                        && #[trigger] grid_of(map)[cy][cx] && !g0[cy][cx]),
            decreases open_count(grid_of(map)), wall_coords@.len(),
        {
            let ghost g_top = grid_of(map);
            let ghost stack_top = wall_coords@;
            proof {
                lemma_grid_dims(map, h, w);
            }

            let up_ok = !map[y - 1][x] && !MazeHelper::is_coord_included(y - 2, x, wall_coords);
            let down_ok = !map[y + 1][x] && !MazeHelper::is_coord_included(y + 2, x, wall_coords);
            let right_ok = !map[y][x - 1] && !MazeHelper::is_coord_included(y, x - 2, wall_coords);
            let left_ok = !map[y][x + 1] && !MazeHelper::is_coord_included(y, x + 2, wall_coords);

            let mut directions: Vec<Direction> = Vec::new();
            if up_ok {
                directions.push(Direction::Up);
            }
            if down_ok {
                directions.push(Direction::Down);
            }
            if right_ok {
                directions.push(Direction::Right);
            }
            if left_ok {
                directions.push(Direction::Left);
            }
            proof {
                assert(forall|i: int|
                    0 <= i < directions@.len()
                        ==> dir_admissible(g_top, stack_top, y as int, x as int, #[trigger] directions@[i]));
            }

            if directions.len() > 0 {
                let ghost py = y as int;
                let ghost px = x as int;
                let ghost s_pre = wall_coords@;
                let (ny, nx, is_wall) = Maze::carve_from(rng, y, x, map, wall_coords, &directions);
                y = ny;
                x = nx;
                proof {
                    let g_new = grid_of(map);
                    lemma_walls_kept_trans(g0, g_top, g_new, h, w);
                    lemma_odd_cells_kept_trans(g0, g_top, g_new, h, w);
                    // the pillar the advance grew from is itself newly
                    // carved by this walk, hence connected to its start
                    if !(py == _y as int && px == _x as int) {
                        assert(g_top[py][px] && !g0[py][px]);
                        lemma_wall_connected_mono(g_top, g_new, h, w, _y as int, _x as int, py, px);
                    }
                    assert forall|i: int, j: int|
                        0 <= i < h && 0 <= j < w && #[trigger] g_new[i][j] && !g0[i][j]
                        implies wall_connected(g_new, h, w, _y as int, _x as int, i, j) by {
                        if g_top[i][j] {
                            assert(wall_connected(g_top, h, w, _y as int, _x as int, i, j));
                            lemma_wall_connected_mono(g_top, g_new, h, w, _y as int, _x as int, i, j);
                        } else {
                            assert(wall_connected(g_new, h, w, py, px, i, j));
                            if !(py == _y as int && px == _x as int) {
                                lemma_wall_connected_trans(g_new, h, w,
                                    _y as int, _x as int, py, px, i, j);
                            }
                        }
                    };
                    // the walk has now carved at least one full advance
                    let was_fresh = py == _y as int && px == _x as int
                        && s_pre.len() == 0 && g_top == g0;
                    if was_fresh {
                        let (cy, cx) = choose|cy: int, cx: int|
                            0 <= cy < h && 0 <= cx < w && adjacent(py, px, cy, cx)
                                && #[trigger] g_new[cy][cx] && !g_top[cy][cx];
                        assert(adjacent(_y as int, _x as int, cy, cx)
                            && g_new[cy][cx] && !g0[cy][cx]);
                    } else {
                        assert(open_count(g_top) + 2 <= open_count(g0));
                        let (cy, cx) = choose|cy: int, cx: int|
                            0 <= cy < h && 0 <= cx < w && adjacent(_y as int, _x as int, cy, cx)
                                && #[trigger] g_top[cy][cx] && !g0[cy][cx];
                        assert(g_new[cy][cx]);
                        assert(adjacent(_y as int, _x as int, cy, cx)
                            && g_new[cy][cx] && !g0[cy][cx]);
                    }
                }
                if is_wall {
                    // the walk has joined structure that already stood
                    break;
                }
                proof {
                    // the two pillars the advance pushed are walled, newly
                    // carved, and strictly inside the border
                    assert forall|t: int| 0 <= t < wall_coords@.len()
                        implies grid_of(map)[((#[trigger] wall_coords@[t]).y) as int][(wall_coords@[t].x) as int]
                            && !g0[(wall_coords@[t].y) as int][(wall_coords@[t].x) as int] by {
                        if t < s_pre.len() {
                            assert(wall_coords@[t] == s_pre[t]);
                            assert(g_top[(s_pre[t].y) as int][(s_pre[t].x) as int]
                                && !g0[(s_pre[t].y) as int][(s_pre[t].x) as int]);
                        }
                    };
                    assert forall|t: int| 0 <= t < wall_coords@.len()
                        implies ((#[trigger] wall_coords@[t]).y) % 2 == 0 && (wall_coords@[t].x) % 2 == 0
                            && 2 <= wall_coords@[t].y <= h - 3 && 2 <= wall_coords@[t].x <= w - 3 by {
                        if t < s_pre.len() {
                            assert(wall_coords@[t] == s_pre[t]);
                            assert(stack_ok(s_pre, h, w));
                        }
                    };
                }
            } else {
                if wall_coords.len() > 0 {
                    let prev = wall_coords.pop().unwrap();
                    y = prev.y;
                    x = prev.x;
                } else {
                    proof {
                        // a dead end with an empty stack: every connector
                        // around the current pillar is walled, so the pillar
                        // itself is already part of the wall structure
                        assert(coords_contain(stack_top, y as int - 2, x as int) == false);
                        assert(g_top[y as int - 1][x as int]);
                        assert(g_top[y as int][x as int]);
                        // a walk that had not yet advanced cannot dead-end:
                        // all four connectors of its open pillar are open
                        if y == _y && x == _x && wall_coords@.len() == 0 && grid_of(map) == g0 {
                            assert(false);
                        }
                    }
                    break;
                }
            }
        }
    }

    /// Generates the maze. The border is walled first; then pillar
    /// coordinates are drawn at random and consumed one by one, and a carve
    /// walk is started from every drawn pillar that is still open. When all
    /// pillars are consumed, every pillar is part of the wall structure,
    /// every walled connector joins two walled pillars, and every cell with
    /// two odd coordinates is still open.
    pub fn generate<R: RandomSource>(&self, rng: &mut R) -> (map: MazeMap)
        requires
            dims_ok(self.height as int, self.width as int),
        ensures
            ({
                let g = grid_of(&map);
                let h = self.height as int;
                let w = self.width as int;
                &&& wf_grid(g, h, w)
                &&& border_walled(g, h, w)
                &&& connectors_joined(g, h, w)
                &&& forall|y: int, x: int|
                    0 <= y < h && 0 <= x < w && y % 2 == 0 && x % 2 == 0 ==> #[trigger] g[y][x]
                &&& forall|y: int, x: int|
                    0 <= y < h && 0 <= x < w && y % 2 == 1 && x % 2 == 1 ==> !(#[trigger] g[y][x])
            }),
    {
        let height = self.height;
        let width = self.width;
        let ghost h = height as int;
        let ghost w = width as int;
        let mut map = MazeHelper::empty_map(height, width, true, false);
        let even_map = MazeHelper::empty_map(height, width, false, true);

        proof {
            assert forall|y: int, x: int|
                0 <= y < h && 0 <= x < w && on_border(y, x, h, w)
                implies #[trigger] grid_of(&map)[y][x] by {
                assert(grid_of(&map)[y][x] == empty_cell(y, x, h, w, true, false));
            };
            assert forall|y: int, x: int|
                0 <= y < h && 0 <= x < w && y % 2 == 1 && x % 2 == 0 && y + 1 < h
                    && #[trigger] grid_of(&map)[y][x]
                implies grid_of(&map)[y - 1][x] && grid_of(&map)[y + 1][x] by {
                assert(grid_of(&map)[y][x] == empty_cell(y, x, h, w, true, false));
                assert(on_border(y, x, h, w));
                assert(x == 0 || x == w - 1);
                assert(grid_of(&map)[y - 1][x] == empty_cell(y - 1, x, h, w, true, false));
                assert(grid_of(&map)[y + 1][x] == empty_cell(y + 1, x, h, w, true, false));
            };
            assert forall|y: int, x: int|
                0 <= y < h && 0 <= x < w && y % 2 == 0 && x % 2 == 1 && x + 1 < w
                    && #[trigger] grid_of(&map)[y][x]
                implies grid_of(&map)[y][x - 1] && grid_of(&map)[y][x + 1] by {
                assert(grid_of(&map)[y][x] == empty_cell(y, x, h, w, true, false));
                assert(on_border(y, x, h, w));
                assert(y == 0 || y == h - 1);
                assert(grid_of(&map)[y][x - 1] == empty_cell(y, x - 1, h, w, true, false));
                assert(grid_of(&map)[y][x + 1] == empty_cell(y, x + 1, h, w, true, false));
            };
            assert(connectors_joined(grid_of(&map), h, w));
        }

        // every pillar coordinate starts out pending
        let mut pending: Coords = Vec::new();
        for y in 0..height
            invariant
                h == height as int && w == width as int,
                dims_ok(h, w),
                wf_grid(grid_of(&even_map), h, w),
                forall|i: int, j: int|
                    0 <= i < h && 0 <= j < w
                        ==> #[trigger] grid_of(&even_map)[i][j] == empty_cell(i, j, h, w, false, true),
                pillars_pending_upto(pending@, y as int, 0, h, w),
                forall|t: int|
                    0 <= t < pending@.len()
                        ==> (#[trigger] pending@[t]).y % 2 == 0 && pending@[t].x % 2 == 0
                            && pending@[t].y < height && pending@[t].x < width,
        {
            proof {
                lemma_grid_dims(&even_map, h, w);
            }
            for x in 0..width
                invariant
                    h == height as int && w == width as int,
                    y < height,
                    dims_ok(h, w),
                    wf_grid(grid_of(&even_map), h, w),
                    even_map@.len() == h,
                    forall|i: int| 0 <= i < h ==> (#[trigger] even_map@[i])@.len() == w,
                    forall|i: int, j: int|
                        0 <= i < h && 0 <= j < w
                            ==> #[trigger] grid_of(&even_map)[i][j] == empty_cell(i, j, h, w, false, true),
                    pillars_pending_upto(pending@, y as int, x as int, h, w),
                    forall|t: int|
                        0 <= t < pending@.len()
                            ==> (#[trigger] pending@[t]).y % 2 == 0 && pending@[t].x % 2 == 0
                                && pending@[t].y < height && pending@[t].x < width,
            {
                let ghost pend0 = pending@;
                if even_map[y][x] {
                    pending.push(Coord::new(y, x));
                }
                proof {
                    assert(grid_of(&even_map)[y as int][x as int] == even_map@[y as int]@[x as int]);
                    assert forall|i: int, j: int|
                        0 <= i && 0 <= j && ((i < y as int && j < w) || (i == y as int && j < x as int + 1))
                            && i % 2 == 0 && j % 2 == 0 && !on_border(i, j, h, w)
                        implies #[trigger] coords_contain(pending@, i, j) by {
                        if i == y as int && j == x as int {
                            assert(empty_cell(i, j, h, w, false, true));
                            lemma_contain_push(pend0, (Coord { y, x }), i, j);
                        } else {
                            assert(coords_contain(pend0, i, j));
                            if pending@ != pend0 {
                                lemma_contain_push(pend0, (Coord { y, x }), i, j);
                            }
                        }
                    };
                }
            }
        }

        while pending.len() > 0
            invariant
                h == height as int && w == width as int,
                dims_ok(h, w),
                wf_grid(grid_of(&map), h, w),
                border_walled(grid_of(&map), h, w),
                connectors_joined(grid_of(&map), h, w),
                forall|y: int, x: int|
                    0 <= y < h && 0 <= x < w && y % 2 == 1 && x % 2 == 1
                        ==> !(#[trigger] grid_of(&map)[y][x]),
                forall|t: int|
                    0 <= t < pending@.len()
                        ==> (#[trigger] pending@[t]).y % 2 == 0 && pending@[t].x % 2 == 0
                            && pending@[t].y < height && pending@[t].x < width,
                forall|i: int, j: int|
                    0 <= i < h && 0 <= j < w && i % 2 == 0 && j % 2 == 0 && !on_border(i, j, h, w)
                        ==> #[trigger] coords_contain(pending@, i, j) || grid_of(&map)[i][j],
            decreases pending@.len(),
        {
            let ghost pend0 = pending@;
            let ghost g_before = grid_of(&map);
            let idx = rng.below(pending.len());
            let c = pending.swap_remove(idx);
            proof {
                lemma_grid_dims(&map, h, w);
                assert forall|t: int| 0 <= t < pending@.len()
                    implies (#[trigger] pending@[t]).y % 2 == 0 && pending@[t].x % 2 == 0
                        && pending@[t].y < height && pending@[t].x < width by {
                    if t == idx {
                        assert(pending@[t] == pend0.last());
                    } else {
                        assert(pending@[t] == pend0[t]);
                    }
                };
            }
            if !map[c.y][c.x] {
                let mut wall_coords: Coords = Vec::new();
                Maze::extend_wall(rng, c.y, c.x, &mut map, &mut wall_coords);
            }
            proof {
                assert(grid_of(&map)[c.y as int][c.x as int]);
                assert forall|y: int, x: int|
                    0 <= y < h && 0 <= x < w && y % 2 == 1 && x % 2 == 1
                    implies !(#[trigger] grid_of(&map)[y][x]) by {
                    assert(!g_before[y][x]);
                    assert(g_before[y][x] == grid_of(&map)[y][x]);
                };
                assert forall|i: int, j: int|
                    0 <= i < h && 0 <= j < w && i % 2 == 0 && j % 2 == 0 && !on_border(i, j, h, w)
                    implies #[trigger] coords_contain(pending@, i, j) || grid_of(&map)[i][j] by {
                    if i == c.y as int && j == c.x as int {
                        assert(grid_of(&map)[i][j]);
                    } else if coords_contain(pend0, i, j) {
                        lemma_contain_swap_remove(pend0, pending@, idx as int, i, j);
                    } else {
                        assert(g_before[i][j]);
                        assert(grid_of(&map)[i][j]);
                    }
                };
            }
        }
        proof {
            assert forall|y: int, x: int|
                0 <= y < h && 0 <= x < w && y % 2 == 0 && x % 2 == 0
                implies #[trigger] grid_of(&map)[y][x] by {
                if !on_border(y, x, h, w) {
                    assert(!coords_contain(pending@, y, x));
                }
            };
        }
        map
    }
}

} // verus!
