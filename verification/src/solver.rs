//! The maze solver: an iterative depth-first search over the open cells
//! with an explicit stack, recording for every cell the cell it was first
//! reached from, and the reconstruction of the route from the goal back
//! toward the start along those parent links.

use vstd::prelude::*;
use crate::grid::{
    Coord, Coords, MazeMap, MazeError, MazeHelper, grid_of, wf_grid, coords_contain, adjacent,
};
use crate::maze::{dims_ok, lemma_grid_dims};

verus! {

/// A walk through open cells: every step moves to a cardinal neighbor, and
/// every cell on the walk is inside the grid and open.
pub open spec fn is_open_path(g: Seq<Seq<bool>>, h: int, w: int, p: Seq<(int, int)>) -> bool {
    p.len() >= 1
    && (forall|k: int|
        0 <= k < p.len()
            ==> 0 <= (#[trigger] p[k]).0 < h && 0 <= p[k].1 < w && !g[p[k].0][p[k].1])
    && (forall|k: int|
        0 <= k < p.len() - 1
            ==> adjacent((#[trigger] p[k]).0, p[k].1, p[k + 1].0, p[k + 1].1))
}

/// An open walk leads from `(sy, sx)` to `(ty, tx)`.
pub open spec fn reachable(g: Seq<Seq<bool>>, h: int, w: int, sy: int, sx: int, ty: int, tx: int) -> bool {
    exists|p: Seq<(int, int)>|
        is_open_path(g, h, w, p) && p.first() == (sy, sx) && p.last() == (ty, tx)
}

/// Following the parent links from the flat index `i` arrives at the start
/// index `senc` within `fuel` steps. An entry of zero means "no parent";
/// any other entry is one more than the parent's flat index.
pub open spec fn reaches_start(moves: Seq<usize>, senc: int, i: int, fuel: nat) -> bool
    decreases fuel,
{
    i == senc
    || (fuel > 0 && 0 <= i < moves.len() && moves[i] != 0
        && reaches_start(moves, senc, moves[i] - 1, (fuel - 1) as nat))
}

/// A parent chain that arrives within some fuel also arrives within more.
pub proof fn lemma_reaches_start_fuel(moves: Seq<usize>, senc: int, i: int, f1: nat, f2: nat)
    requires
        reaches_start(moves, senc, i, f1),
        f1 <= f2,
    ensures
        reaches_start(moves, senc, i, f2),
    decreases f1,
{
    if i != senc {
        lemma_reaches_start_fuel(moves, senc, moves[i] - 1, (f1 - 1) as nat, (f2 - 1) as nat);
    }
}

/// Giving a parent to a cell that had none, and is not the start, breaks no
/// existing parent chain: no chain passed through that cell.
pub proof fn lemma_reaches_start_update(moves: Seq<usize>, senc: int, i: int, fuel: nat, k: int, v: usize)
    requires
        reaches_start(moves, senc, i, fuel),
        0 <= k < moves.len(),
        moves[k] == 0,
        k != senc,
    ensures
        reaches_start(moves.update(k, v), senc, i, fuel),
    decreases fuel,
{
    if i != senc {
        assert(i != k);
        lemma_reaches_start_update(moves, senc, moves[i] - 1, (fuel - 1) as nat, k, v);
    }
}

/// The number of `true` entries of a sequence of booleans.
pub open spec fn count_true(s: Seq<bool>) -> nat
    decreases s.len(),
{
    if s.len() == 0 {
        0
    } else {
        count_true(s.drop_last()) + if s.last() { 1nat } else { 0nat }
    }
}

/// There are never more `true` entries than entries.
pub proof fn lemma_count_true_le_len(s: Seq<bool>)
    ensures
        count_true(s) <= s.len(),
    decreases s.len(),
{
    if s.len() > 0 {
        lemma_count_true_le_len(s.drop_last());
    }
}

/// Setting one entry to `true` raises the count by one if the entry was
/// `false`, and changes nothing otherwise.
pub proof fn lemma_count_true_update(s: Seq<bool>, k: int)
    requires
        0 <= k < s.len(),
    ensures
        count_true(s.update(k, true)) == count_true(s) + if s[k] { 0nat } else { 1nat },
    decreases s.len(),
{
    let s2 = s.update(k, true);
    if k == s.len() - 1 {
        assert(s2.drop_last() =~= s.drop_last());
    } else {
        assert(s2.drop_last() =~= s.drop_last().update(k, true));
        assert(s2.last() == s.last());
        lemma_count_true_update(s.drop_last(), k);
    }
}

/// The flat encoding `y * w + x` decodes back to `(y, x)`.
pub proof fn lemma_encode_decode(y: int, x: int, w: int)
    requires
        w >= 1,
        0 <= y,
        0 <= x < w,
    ensures
        (y * w + x) / w == y,
        (y * w + x) % w == x,
{
    vstd::arithmetic::div_mod::lemma_fundamental_div_mod_converse(y * w + x, w, y, x);
}

/// The flat encoding of an in-bounds coordinate is an in-bounds index.
pub proof fn lemma_enc_bound(y: int, x: int, h: int, w: int)
    requires
        0 <= y < h,
        0 <= x < w,
        w >= 1,
    ensures
        0 <= y * w + x < h * w,
{
    assert(0 <= y * w + x < h * w) by (nonlinear_arith)
        requires 0 <= y < h && 0 <= x < w && w >= 1;
}

/// A flat index inside the grid decodes to an in-bounds coordinate.
pub proof fn lemma_index_coords(i: int, h: int, w: int)
    requires
        0 <= i < h * w,
        w >= 1,
    ensures
        0 <= i / w < h,
        0 <= i % w < w,
        i == (i / w) * w + i % w,
{
    vstd::arithmetic::div_mod::lemma_fundamental_div_mod(i, w);
    assert(0 <= i / w < h && 0 <= i % w < w && i == (i / w) * w + i % w) by (nonlinear_arith)
        requires 0 <= i < h * w && w >= 1 && i == w * (i / w) + i % w && 0 <= i % w < w;
}

/// A cell is reachable from itself when it is open and inside the grid.
pub proof fn lemma_reachable_self(g: Seq<Seq<bool>>, h: int, w: int, y: int, x: int)
    requires
        0 <= y < h,
        0 <= x < w,
        !g[y][x],
    ensures
        reachable(g, h, w, y, x, y, x),
{
    let p: Seq<(int, int)> = seq![(y, x)];
    assert(is_open_path(g, h, w, p));
    assert(p.first() == (y, x) && p.last() == (y, x));
}

/// Reachability extends across one step to an adjacent open cell.
pub proof fn lemma_reachable_extend(
    g: Seq<Seq<bool>>, h: int, w: int, sy: int, sx: int, ty: int, tx: int, uy: int, ux: int,
)
    requires
        reachable(g, h, w, sy, sx, ty, tx),
        adjacent(ty, tx, uy, ux),
        0 <= uy < h,
        0 <= ux < w,
        !g[uy][ux],
    ensures
        reachable(g, h, w, sy, sx, uy, ux),
{
    let p = choose|p: Seq<(int, int)>|
        is_open_path(g, h, w, p) && p.first() == (sy, sx) && p.last() == (ty, tx);
    let p2 = p.push((uy, ux));
    assert(p2.last() == (uy, ux));
    assert(p2.first() == (sy, sx));
    assert forall|k: int| 0 <= k < p2.len() - 1
        implies adjacent((#[trigger] p2[k]).0, p2[k].1, p2[k + 1].0, p2[k + 1].1) by {
        if k < p.len() - 1 {
            assert(p2[k] == p[k] && p2[k + 1] == p[k + 1]);
        } else {
            assert(p2[k] == p.last() && p2[k + 1] == (uy, ux));
        }
    };
    assert(is_open_path(g, h, w, p2));
}

/// The four open in-bounds neighbors of `(y, x)` all carry the visited mark.
pub open spec fn neighbors_visited(g: Seq<Seq<bool>>, visited: Seq<bool>, h: int, w: int, y: int, x: int) -> bool {
    &&& (y >= 1 && !g[y - 1][x] ==> visited[(y - 1) * w + x])
    &&& (y + 1 < h && !g[y + 1][x] ==> visited[(y + 1) * w + x])
    &&& (x >= 1 && !g[y][x - 1] ==> visited[y * w + (x - 1)])
    &&& (x + 1 < w && !g[y][x + 1] ==> visited[y * w + (x + 1)])
}

/// When every visited cell has all of its open neighbors visited, every
/// open walk that starts on a visited cell ends on one.
pub proof fn lemma_closed_under_paths(
    g: Seq<Seq<bool>>, visited: Seq<bool>, h: int, w: int, p: Seq<(int, int)>,
)
    requires
        w >= 1,
        visited.len() == h * w,
        forall|i: int|
            0 <= i < h * w && #[trigger] visited[i]
                ==> neighbors_visited(g, visited, h, w, i / w, i % w),
        is_open_path(g, h, w, p),
        visited[p.first().0 * w + p.first().1],
    ensures
        visited[p.last().0 * w + p.last().1],
    decreases p.len(),
{
    if p.len() > 1 {
        let (y0, x0) = p.first();
        let (y1, x1) = (p[1].0, p[1].1);
        let i0 = y0 * w + x0;
        lemma_encode_decode(y0, x0, w);
        assert(0 <= i0 < h * w) by (nonlinear_arith)
            requires 0 <= y0 < h && 0 <= x0 < w && w >= 1 && i0 == y0 * w + x0;
        assert(neighbors_visited(g, visited, h, w, y0, x0));
        assert(adjacent(y0, x0, y1, x1));
        assert(visited[y1 * w + x1]);
        let p2 = p.subrange(1, p.len() as int);
        assert(is_open_path(g, h, w, p2));
        assert(p2.first() == (y1, x1));
        assert(p2.last() == p.last());
        lemma_closed_under_paths(g, visited, h, w, p2);
    }
}

/// The flat index of the fixed start cell `(h - 2, w - 2)`.
pub open spec fn start_enc(h: int, w: int) -> int {
    (h - 2) * w + (w - 2)
}

/// Every visited cell is open and reachable from the start.
#[verifier::opaque]
pub open spec fn inv_visited_ok(g: Seq<Seq<bool>>, h: int, w: int, visited: Seq<bool>) -> bool {
    forall|i: int|
        0 <= i < h * w && #[trigger] visited[i]
            ==> !g[i / w][i % w] && reachable(g, h, w, h - 2, w - 2, i / w, i % w)
}

/// A cell carries a parent link exactly when it is visited and is not the
/// start.
#[verifier::opaque]
pub open spec fn inv_link(h: int, w: int, moves: Seq<usize>, visited: Seq<bool>) -> bool {
    forall|i: int|
        0 <= i < h * w
            ==> (((#[trigger] moves[i]) != 0) <==> (visited[i] && i != start_enc(h, w)))
}

/// Every parent link is a step between open cells toward the start or
/// toward a cell that is itself linked.
#[verifier::opaque]
pub open spec fn inv_parents(g: Seq<Seq<bool>>, h: int, w: int, moves: Seq<usize>) -> bool {
    forall|i: int|
        0 <= i < h * w && (#[trigger] moves[i]) != 0
            ==> 0 < moves[i] <= h * w
                && !g[i / w][i % w]
                && !g[(moves[i] - 1) / w][(moves[i] - 1) % w]
                && adjacent(i / w, i % w, (moves[i] - 1) / w, (moves[i] - 1) % w)
                && (moves[i] - 1 == start_enc(h, w) || moves[moves[i] - 1] != 0)
}

/// Every chain of parent links arrives at the start within `fuel` steps.
#[verifier::opaque]
pub open spec fn inv_reaches(h: int, w: int, moves: Seq<usize>, fuel: nat) -> bool {
    forall|i: int|
        0 <= i < h * w && (#[trigger] moves[i]) != 0
            ==> reaches_start(moves, start_enc(h, w), i, fuel)
}

/// Every stack entry is inside the grid and visited.
#[verifier::opaque]
pub open spec fn inv_stack(h: int, w: int, visited: Seq<bool>, sc: Seq<Coord>) -> bool {
    forall|t: int|
        0 <= t < sc.len()
            ==> ((#[trigger] sc[t]).y as int) < h && (sc[t].x as int) < w
                && visited[sc[t].y * w + sc[t].x]
}

/// The invariant of the search: shapes, the start visited and without a
/// parent, stack entries in bounds and visited, every visited cell open and
/// reachable, the visited mark and the parent links in step, every link a
/// step between open cells, and every chain of links arriving at the start
/// within one step per visited cell.
pub open spec fn search_inv(
    g: Seq<Seq<bool>>, h: int, w: int, moves: Seq<usize>, visited: Seq<bool>, sc: Seq<Coord>,
) -> bool {
    &&& moves.len() == h * w
    &&& visited.len() == h * w
    &&& visited[start_enc(h, w)]
    &&& moves[start_enc(h, w)] == 0
    &&& inv_stack(h, w, visited, sc)
    &&& inv_visited_ok(g, h, w, visited)
    &&& inv_link(h, w, moves, visited)
    &&& inv_parents(g, h, w, moves)
    &&& inv_reaches(h, w, moves, count_true(visited))
}

/// The parent links are self-contained: every linked cell points one more
/// than the flat index of a cardinal neighbor, and following the links
/// arrives at the start within one step per grid cell. This is everything
/// route reconstruction needs, and it does not mention the grid.
pub open spec fn route_links_ok(h: int, w: int, moves: Seq<usize>) -> bool {
    &&& h >= 2 && w >= 2
    &&& moves.len() == h * w
    &&& forall|i: int|
        0 <= i < h * w && (#[trigger] moves[i]) != 0
            ==> 0 < moves[i] <= h * w
                && adjacent(i / w, i % w, (moves[i] - 1) / w, (moves[i] - 1) % w)
                && reaches_start(moves, start_enc(h, w), i, (h * w) as nat)
}

/// What the search returns: self-contained parent links; the start has no
/// parent; every linked cell and its parent are open, and the parent is the
/// start or itself linked; and a cell is linked exactly when it is open,
/// reachable from the start, and not the start itself.
pub open spec fn solve_post(g: Seq<Seq<bool>>, h: int, w: int, moves: Seq<usize>) -> bool {
    &&& route_links_ok(h, w, moves)
    &&& moves[start_enc(h, w)] == 0
    &&& forall|i: int|
        0 <= i < h * w && (#[trigger] moves[i]) != 0
            ==> !g[i / w][i % w]
                && !g[(moves[i] - 1) / w][(moves[i] - 1) % w]
                && (moves[i] - 1 == start_enc(h, w) || moves[moves[i] - 1] != 0)
    &&& forall|i: int|
        0 <= i < h * w
            ==> (((#[trigger] moves[i]) != 0)
                <==> (reachable(g, h, w, h - 2, w - 2, i / w, i % w) && i != start_enc(h, w)))
}

/// A vector of `n` copies of `val`.
fn filled<T: Copy>(val: T, n: usize) -> (v: Vec<T>)
    ensures
        v@.len() == n,
        forall|i: int| 0 <= i < n ==> v@[i] == val,
{
    let mut v: Vec<T> = Vec::new();
    for k in 0..n
        invariant
            v@.len() == k,
            forall|i: int| 0 <= i < k ==> v@[i] == val,
    {
        v.push(val);
    }
    v
}

/// A fresh visit keeps every visited cell open and reachable: the new cell
/// is open and reached through the probed neighbor.
pub proof fn lemma_probe_reachable(
    g: Seq<Seq<bool>>, h: int, w: int, v0: Seq<bool>, v1: Seq<bool>,
    ty: int, tx: int, ny: int, nx: int,
)
    requires
        w >= 1,
        v0.len() == h * w,
        inv_visited_ok(g, h, w, v0),
        0 <= ty < h && 0 <= tx < w,
        0 <= ny < h && 0 <= nx < w,
        adjacent(ty, tx, ny, nx),
        v0[ty * w + tx],
        !g[ny][nx],
        v1 == v0.update(ny * w + nx, true),
    ensures
        inv_visited_ok(g, h, w, v1),
{
    reveal(inv_visited_ok);
    let n = h * w;
    let ne = ny * w + nx;
    let te = ty * w + tx;
    assert(0 <= ne < n) by (nonlinear_arith)
        requires 0 <= ny < h && 0 <= nx < w && w >= 1 && ne == ny * w + nx && n == h * w;
    assert(0 <= te < n) by (nonlinear_arith)
        requires 0 <= ty < h && 0 <= tx < w && w >= 1 && te == ty * w + tx && n == h * w;
    lemma_encode_decode(ny, nx, w);
    lemma_encode_decode(ty, tx, w);
    assert forall|i: int| 0 <= i < n && #[trigger] v1[i]
        implies !g[i / w][i % w] && reachable(g, h, w, h - 2, w - 2, i / w, i % w) by {
        if i == ne {
            assert(v0[te]);
            assert(reachable(g, h, w, h - 2, w - 2, ty, tx));
            lemma_reachable_extend(g, h, w, h - 2, w - 2, ty, tx, ny, nx);
        } else {
            assert(v0[i]);
        }
    };
}

/// A fresh visit keeps every parent link a step between open cells toward
/// the start or an already linked cell, with the new link pointing at the
/// probed neighbor.
pub proof fn lemma_probe_links(
    g: Seq<Seq<bool>>, h: int, w: int, m0: Seq<usize>, m1: Seq<usize>,
    ne: int, te: int, pv: usize,
)
    requires
        w >= 1,
        m0.len() == h * w,
        inv_parents(g, h, w, m0),
        0 <= ne < h * w,
        0 <= te < h * w,
        te != ne,
        pv as int == te + 1,
        !g[ne / w][ne % w],
        !g[te / w][te % w],
        adjacent(ne / w, ne % w, te / w, te % w),
        te == start_enc(h, w) || m0[te] != 0,
        m1 == m0.update(ne, pv),
    ensures
        inv_parents(g, h, w, m1),
{
    reveal(inv_parents);
    let n = h * w;
    let senc = start_enc(h, w);
    assert forall|i: int| 0 <= i < n && (#[trigger] m1[i]) != 0
        implies 0 < m1[i] <= n
            && !g[i / w][i % w]
            && !g[(m1[i] - 1) / w][(m1[i] - 1) % w]
            && adjacent(i / w, i % w, (m1[i] - 1) / w, (m1[i] - 1) % w)
            && (m1[i] - 1 == senc || m1[m1[i] - 1] != 0) by {
        if i == ne {
            assert(m1[ne] == pv);
            assert(m1[te] == m0[te]);
        } else {
            assert(m1[i] == m0[i]);
            let p = m0[i] - 1;
            assert(p == senc || m0[p] != 0);
            if p != ne {
                assert(m1[p] == m0[p]);
            }
        }
    };
}

/// A fresh visit keeps every chain of parent links arriving at the start
/// within one step per visited cell, the new chain going through the
/// probed neighbor.
pub proof fn lemma_probe_reaches(
    h: int, w: int, m0: Seq<usize>, m1: Seq<usize>, c0: nat, c1: nat, ne: int, te: int, pv: usize,
)
    requires
        m0.len() == h * w,
        inv_reaches(h, w, m0, c0),
        0 <= ne < h * w,
        0 <= te < h * w,
        te != ne,
        ne != start_enc(h, w),
        m0[ne] == 0,
        pv as int == te + 1,
        te == start_enc(h, w) || m0[te] != 0,
        m1 == m0.update(ne, pv),
        c1 == c0 + 1,
    ensures
        inv_reaches(h, w, m1, c1),
{
    reveal(inv_reaches);
    let senc = start_enc(h, w);
    assert forall|i: int| 0 <= i < h * w && (#[trigger] m1[i]) != 0
        implies reaches_start(m1, senc, i, c1) by {
        if i == ne {
            if te == senc {
                assert(reaches_start(m1, senc, te, (c1 - 1) as nat));
            } else {
                assert(m0[te] != 0);
                assert(reaches_start(m0, senc, te, c0));
                lemma_reaches_start_update(m0, senc, te, c0, ne, pv);
                assert(reaches_start(m1, senc, te, c0));
                lemma_reaches_start_fuel(m1, senc, te, c0, (c1 - 1) as nat);
            }
            assert(reaches_start(m1, senc, ne, c1));
        } else {
            assert(m0[i] != 0);
            assert(reaches_start(m0, senc, i, c0));
            lemma_reaches_start_update(m0, senc, i, c0, ne, pv);
            lemma_reaches_start_fuel(m1, senc, i, c0, c1);
        }
    };
}

/// A fresh visit keeps the visited marks and the parent links in step.
pub proof fn lemma_probe_link_mark(
    h: int, w: int, m0: Seq<usize>, v0: Seq<bool>, m1: Seq<usize>, v1: Seq<bool>,
    ne: int, pv: usize,
)
    requires
        m0.len() == h * w,
        v0.len() == h * w,
        inv_link(h, w, m0, v0),
        0 <= ne < h * w,
        ne != start_enc(h, w),
        pv != 0,
        m1 == m0.update(ne, pv),
        v1 == v0.update(ne, true),
    ensures
        inv_link(h, w, m1, v1),
{
    reveal(inv_link);
    let senc = start_enc(h, w);
    assert forall|i: int| 0 <= i < h * w
        implies (((#[trigger] m1[i]) != 0) <==> (v1[i] && i != senc)) by {
        if i != ne {
            assert(m1[i] == m0[i] && v1[i] == v0[i]);
        }
    };
}

/// A fresh visit keeps every stack entry in bounds and visited, the pushed
/// entry being the newly visited cell.
pub proof fn lemma_probe_stack(
    h: int, w: int, v0: Seq<bool>, v1: Seq<bool>, s0: Seq<Coord>, s1: Seq<Coord>,
    ny: int, nx: int,
)
    requires
        v0.len() == h * w,
        inv_stack(h, w, v0, s0),
        0 <= ny < h && 0 <= nx < w,
        w >= 1,
        h * w <= usize::MAX,
        v1 == v0.update(ny * w + nx, true),
        s1 == s0.push((Coord { y: ny as usize, x: nx as usize })),
    ensures
        inv_stack(h, w, v1, s1),
        forall|i: int|
            0 <= i < h * w && #[trigger] v1[i] && !v0[i]
                ==> coords_contain(s1, i / w, i % w),
{
    reveal(inv_stack);
    let ne = ny * w + nx;
    assert(0 <= ne < h * w) by (nonlinear_arith)
        requires 0 <= ny < h && 0 <= nx < w && w >= 1 && ne == ny * w + nx;
    assert(h <= h * w && w <= h * w) by (nonlinear_arith)
        requires h >= 1 && w >= 1;
    lemma_encode_decode(ny, nx, w);
    assert forall|t: int| 0 <= t < s1.len()
        implies ((#[trigger] s1[t]).y as int) < h && (s1[t].x as int) < w
            && v1[s1[t].y * w + s1[t].x] by {
        if t < s0.len() {
            assert(s1[t] == s0[t]);
            assert(v0[s0[t].y * w + s0[t].x]);
            lemma_enc_bound(s0[t].y as int, s0[t].x as int, h, w);
        } else {
            assert(s1[t].y == ny as usize && s1[t].x == nx as usize);
        }
    };
    assert forall|i: int| 0 <= i < h * w && #[trigger] v1[i] && !v0[i]
        implies coords_contain(s1, i / w, i % w) by {
        assert(i == ne);
        assert(s1[s0.len() as int].y == ny as usize && s1[s0.len() as int].x == nx as usize);
    };
}

/// One probe of the search that visits a new cell maintains the search
/// invariant: the newly linked cell is open and reachable through its
/// parent, and every existing chain of links is untouched.
pub proof fn lemma_probe_update(
    g: Seq<Seq<bool>>, h: int, w: int,
    m0: Seq<usize>, v0: Seq<bool>, s0: Seq<Coord>,
    m1: Seq<usize>, v1: Seq<bool>, s1: Seq<Coord>,
    ty: int, tx: int, ny: int, nx: int, pv: usize,
)
    requires
        dims_ok(h, w),
        h * w <= usize::MAX,
        wf_grid(g, h, w),
        search_inv(g, h, w, m0, v0, s0),
        0 <= ty < h && 0 <= tx < w,
        0 <= ny < h && 0 <= nx < w,
        adjacent(ty, tx, ny, nx),
        v0[ty * w + tx],
        !g[ny][nx],
        !v0[ny * w + nx],
        pv as int == ty * w + tx + 1,
        m1 == m0.update(ny * w + nx, pv),
        v1 == v0.update(ny * w + nx, true),
        s1 == s0.push((Coord { y: ny as usize, x: nx as usize })),
    ensures
        search_inv(g, h, w, m1, v1, s1),
        count_true(v1) == count_true(v0) + 1,
        forall|i: int|
            0 <= i < h * w && #[trigger] v1[i] && !v0[i]
                ==> coords_contain(s1, i / w, i % w),
{
    let n = h * w;
    let senc = start_enc(h, w);
    let ne = ny * w + nx;
    let te = ty * w + tx;
    assert(0 <= ne < n) by (nonlinear_arith)
        requires 0 <= ny < h && 0 <= nx < w && w >= 1 && ne == ny * w + nx && n == h * w;
    assert(0 <= te < n) by (nonlinear_arith)
        requires 0 <= ty < h && 0 <= tx < w && w >= 1 && te == ty * w + tx && n == h * w;
    lemma_encode_decode(ny, nx, w);
    lemma_encode_decode(ty, tx, w);
    lemma_enc_bound(h - 2, w - 2, h, w);
    lemma_count_true_update(v0, ne);
    assert(ne != senc);
    assert(te != ne);
    assert(te == senc || m0[te] != 0) by {
        reveal(inv_link);
    }
    assert(m0[ne] == 0) by {
        reveal(inv_link);
    }
    assert(!g[te / w][te % w]) by {
        reveal(inv_visited_ok);
    }
    lemma_probe_reachable(g, h, w, v0, v1, ty, tx, ny, nx);
    lemma_probe_links(g, h, w, m0, m1, ne, te, pv);
    lemma_probe_reaches(h, w, m0, m1, count_true(v0), count_true(v1), ne, te, pv);
    lemma_probe_link_mark(h, w, m0, v0, m1, v1, ne, pv);
    lemma_probe_stack(h, w, v0, v1, s0, s1, ny, nx);
    assert(v1[senc]);
    assert(m1[senc] == m0[senc]);
}

/// A coordinate contained in a sequence is contained in any longer sequence
/// that agrees with it entrywise.
pub proof fn lemma_contain_prefix(s1: Seq<Coord>, s2: Seq<Coord>, i: int, j: int)
    requires
        coords_contain(s1, i, j),
        s1.len() <= s2.len(),
        forall|t: int| 0 <= t < s1.len() ==> #[trigger] s2[t] == s1[t],
    ensures
        coords_contain(s2, i, j),
{
    let k = choose|k: int| 0 <= k < s1.len() && (#[trigger] s1[k]).y == i && s1[k].x == j;
    assert(s2[k] == s1[k]);
}

/// When the search ends with an empty stack, its invariant gives the full
/// contract: the parent links are exact, and a cell is linked exactly when
/// it is open, reachable from the start, and not the start itself.
pub proof fn lemma_search_complete(
    g: Seq<Seq<bool>>, h: int, w: int, m: Seq<usize>, v: Seq<bool>, s: Seq<Coord>,
)
    requires
        dims_ok(h, w),
        h * w <= usize::MAX,
        wf_grid(g, h, w),
        !g[h - 2][w - 2],
        search_inv(g, h, w, m, v, s),
        s.len() == 0,
        forall|i: int|
            0 <= i < h * w && #[trigger] v[i] && !coords_contain(s, i / w, i % w)
                ==> neighbors_visited(g, v, h, w, i / w, i % w),
    ensures
        solve_post(g, h, w, m),
{
    let n = h * w;
    let senc = start_enc(h, w);
    lemma_enc_bound(h - 2, w - 2, h, w);
    lemma_encode_decode(h - 2, w - 2, w);
    lemma_count_true_le_len(v);
    assert forall|i: int| 0 <= i < n && #[trigger] v[i]
        implies neighbors_visited(g, v, h, w, i / w, i % w) by {
        assert(!coords_contain(s, i / w, i % w));
    };
    assert forall|i: int| 0 <= i < n && (#[trigger] m[i]) != 0
        implies 0 < m[i] <= n
            && adjacent(i / w, i % w, (m[i] - 1) / w, (m[i] - 1) % w)
            && reaches_start(m, senc, i, n as nat) by {
        reveal(inv_parents);
        reveal(inv_reaches);
        lemma_reaches_start_fuel(m, senc, i, count_true(v), n as nat);
    };
    assert forall|i: int| 0 <= i < n && (#[trigger] m[i]) != 0
        implies !g[i / w][i % w] && !g[(m[i] - 1) / w][(m[i] - 1) % w]
            && (m[i] - 1 == senc || m[m[i] - 1] != 0) by {
        reveal(inv_parents);
    };
    assert forall|i: int| 0 <= i < n
        implies (((#[trigger] m[i]) != 0)
            <==> (reachable(g, h, w, h - 2, w - 2, i / w, i % w) && i != senc)) by {
        reveal(inv_link);
        reveal(inv_visited_ok);
        if m[i] != 0 {
            assert(v[i]);
        }
        if reachable(g, h, w, h - 2, w - 2, i / w, i % w) && i != senc {
            let p = choose|p: Seq<(int, int)>|
                is_open_path(g, h, w, p) && p.first() == (h - 2, w - 2)
                    && p.last() == (i / w, i % w);
            assert(v[p.first().0 * w + p.first().1]);
            lemma_closed_under_paths(g, v, h, w, p);
            vstd::arithmetic::div_mod::lemma_fundamental_div_mod(i, w);
            assert((i / w) * w + i % w == i) by (nonlinear_arith)
                requires w >= 1 && i == w * (i / w) + i % w;
            assert(v[i]);
        }
    };
}

/// Solver correctness, tied together: every coordinate on a route that
/// follows the parent links of a search result lies on an open cell of the
/// searched grid, and is reachable from the start.
pub proof fn lemma_route_cells_open(
    g: Seq<Seq<bool>>, h: int, w: int, moves: Seq<usize>, path: Seq<Coord>,
)
    requires
        w >= 1,
        solve_post(g, h, w, moves),
        forall|k: int|
            0 <= k < path.len()
                ==> ((#[trigger] path[k]).y as int) < h && (path[k].x as int) < w
                    && moves[path[k].y * w + path[k].x] != 0,
    ensures
        forall|k: int|
            0 <= k < path.len()
                ==> !g[(#[trigger] path[k]).y as int][path[k].x as int]
                    && reachable(g, h, w, h - 2, w - 2, path[k].y as int, path[k].x as int),
{
    assert forall|k: int| 0 <= k < path.len()
        implies !g[(#[trigger] path[k]).y as int][path[k].x as int]
            && reachable(g, h, w, h - 2, w - 2, path[k].y as int, path[k].x as int) by {
        let y = path[k].y as int;
        let x = path[k].x as int;
        lemma_enc_bound(y, x, h, w);
        lemma_encode_decode(y, x, w);
        assert(moves[y * w + x] != 0);
    };
}

/// The depth-first maze solver: its dimensions and the fixed start and
/// goal cells.
#[derive(Debug)]
pub struct MazeSolverDfs {
    pub height: usize,
    pub width: usize,
    pub start: Coord,
    pub goal: Coord,
}

impl MazeSolverDfs {
    /// The dimensions are normalized, their product fits the flat encoding,
    /// the start is two cells in from the bottom-right corner, and the goal
    /// is the cell just inside the top-left corner.
    pub open spec fn wf(&self) -> bool {
        dims_ok(self.height as int, self.width as int)
        && self.height * self.width <= usize::MAX
        && self.start.y == self.height - 2 && self.start.x == self.width - 2
        && self.goal.y == 1 && self.goal.x == 1
    }

    /// One neighbor probe of the search: when the neighbor `(ny, nx)` is
    /// open and not yet visited, it is marked visited, its parent link is
    /// set to the probed cell `(ty, tx)`, and it is pushed for expansion.
    fn try_step(
        map: &MazeMap,
        height: usize,
        width: usize,
        ty: usize,
        tx: usize,
        ny: usize,
        nx: usize,
        moves_encoded: &mut Vec<usize>,
        visited: &mut Vec<bool>,
        search_coords: &mut Coords,
    )
        requires
            ({
                let g = grid_of(map);
                let h = height as int;
                let w = width as int;
                &&& dims_ok(h, w)
                &&& h * w <= usize::MAX
                &&& wf_grid(g, h, w)
                &&& search_inv(g, h, w, old(moves_encoded)@, old(visited)@, old(search_coords)@)
                &&& (ty as int) < h && (tx as int) < w
                &&& (ny as int) < h && (nx as int) < w
                &&& adjacent(ty as int, tx as int, ny as int, nx as int)
                &&& old(visited)@[(ty as int) * w + (tx as int)]
            }),
        ensures
            ({
                let g = grid_of(map);
                let h = height as int;
                let w = width as int;
                let n = h * w;
                let ne = (ny as int) * w + (nx as int);
                let te = (ty as int) * w + (tx as int);
                &&& search_inv(g, h, w, final(moves_encoded)@, final(visited)@, final(search_coords)@)
                &&& (forall|i: int| 0 <= i < n && old(visited)@[i] ==> #[trigger] final(visited)@[i])
                &&& (forall|i: int|
                    0 <= i < n && #[trigger] final(visited)@[i] && !old(visited)@[i]
                        ==> coords_contain(final(search_coords)@, i / w, i % w))
                &&& (forall|t: int|
                    0 <= t < old(search_coords)@.len()
                        ==> #[trigger] final(search_coords)@[t] == old(search_coords)@[t])
                &&& old(search_coords)@.len() <= final(search_coords)@.len()
                &&& count_true(final(visited)@) == count_true(old(visited)@)
                    + final(search_coords)@.len() - old(search_coords)@.len()
                &&& (!g[ny as int][nx as int] ==> final(visited)@[ne])
                &&& (forall|i: int|
                    0 <= i < n && #[trigger] final(moves_encoded)@[i] != old(moves_encoded)@[i]
                        ==> old(moves_encoded)@[i] == 0)
            }),
    {
        let ghost g = grid_of(map);
        let ghost h = height as int;
        let ghost w = width as int;
        let ghost n = h * w;
        let ghost senc = start_enc(h, w);
        let ghost m0 = moves_encoded@;
        let ghost v0 = visited@;
        let ghost s0 = search_coords@;
        let ghost ne = (ny as int) * w + (nx as int);
        let ghost te = (ty as int) * w + (tx as int);

        proof {
            lemma_grid_dims(map, h, w);
            assert(0 <= ne < n) by (nonlinear_arith)
                requires 0 <= (ny as int) < h && 0 <= (nx as int) < w && w >= 1
                    && ne == (ny as int) * w + (nx as int) && n == h * w;
            assert(0 <= te < n) by (nonlinear_arith)
                requires 0 <= (ty as int) < h && 0 <= (tx as int) < w && w >= 1
                    && te == (ty as int) * w + (tx as int) && n == h * w;
            lemma_encode_decode(ny as int, nx as int, w);
            lemma_encode_decode(ty as int, tx as int, w);
        }

        let nenc = ny * width + nx;
        if !map[ny][nx] {
            if !visited[nenc] {
                let tenc = ty * width + tx;
                moves_encoded[nenc] = tenc + 1;
                visited[nenc] = true;
                search_coords.push(Coord::new(ny, nx));
                proof {
                    lemma_probe_update(g, h, w, m0, v0, s0,
                        moves_encoded@, visited@, search_coords@,
                        ty as int, tx as int, ny as int, nx as int, (tenc + 1) as usize);
                    assert forall|i: int| 0 <= i < n && #[trigger] moves_encoded@[i] != m0[i]
                        implies m0[i] == 0 by {
                        assert(i == ne);
                        reveal(inv_link);
                        assert(!v0[ne]);
                    };
                }
            }
        }
    }

    /// Explores every open cell reachable from the start `(height - 2,
    /// width - 2)` with an explicit stack, recording for each cell one more
    /// than the flat index of the cell it was first reached from; an entry
    /// of zero means the cell was never reached (the start keeps zero). The
    /// search explores the whole reachable component rather than stopping
    /// at the goal. A cell ends up linked exactly when it is open,
    /// reachable from the start, and not the start itself.
    pub fn solve(&self, map: &MazeMap) -> (moves: Vec<usize>)
        requires
            self.wf(),
            wf_grid(grid_of(map), self.height as int, self.width as int),
            !grid_of(map)[self.height - 2][self.width - 2],
        ensures
            solve_post(grid_of(map), self.height as int, self.width as int, moves@),
    {
        let height = self.height;
        let width = self.width;
        let ghost g = grid_of(map);
        let ghost h = height as int;
        let ghost w = width as int;
        let ghost n = h * w;
        let ghost senc = start_enc(h, w);

        let start = Coord::new(height - 2, width - 2);

        let mut search_coords: Coords = Vec::new();
        search_coords.push(start);

        let size = height * width;
        let mut moves_encoded: Vec<usize> = filled(0, size);
        let mut visited: Vec<bool> = filled(false, size);

        proof {
            lemma_enc_bound(h - 2, w - 2, h, w);
            lemma_encode_decode(h - 2, w - 2, w);
            assert(w * (h - 2) + (w - 2) == senc) by (nonlinear_arith)
                requires senc == (h - 2) * w + (w - 2);
        }
        let start_index = MazeHelper::encode_coord(&start, width);
        visited[start_index] = true;

        proof {
            lemma_reachable_self(g, h, w, h - 2, w - 2);
            lemma_count_true_update(Seq::new(n as nat, |i: int| false), senc);
            assert(inv_stack(h, w, visited@, search_coords@)) by {
                reveal(inv_stack);
                assert(search_coords@[0] == (Coord { y: (height - 2) as usize, x: (width - 2) as usize }));
            }
            assert(inv_visited_ok(g, h, w, visited@)) by {
                reveal(inv_visited_ok);
                assert forall|i: int| 0 <= i < n && #[trigger] visited@[i]
                    implies !g[i / w][i % w] && reachable(g, h, w, h - 2, w - 2, i / w, i % w) by {
                    assert(i == senc);
                };
            }
            assert(inv_link(h, w, moves_encoded@, visited@)) by {
                reveal(inv_link);
            }
            assert(inv_parents(g, h, w, moves_encoded@)) by {
                reveal(inv_parents);
            }
            assert(inv_reaches(h, w, moves_encoded@, count_true(visited@))) by {
                reveal(inv_reaches);
            }
            assert forall|i: int|
                0 <= i < n && #[trigger] visited@[i]
                    && !coords_contain(search_coords@, i / w, i % w)
                implies neighbors_visited(g, visited@, h, w, i / w, i % w) by {
                assert(i == senc);
                assert(search_coords@[0].y == i / w && search_coords@[0].x == i % w);
            };
        }

        while search_coords.len() > 0
            invariant
                h == height as int && w == width as int,
                dims_ok(h, w),
                n == h * w,
                n <= usize::MAX,
                wf_grid(g, h, w),
                g == grid_of(map),
                !g[h - 2][w - 2],
                senc == start_enc(h, w),
                search_inv(g, h, w, moves_encoded@, visited@, search_coords@),
                forall|i: int|
                    0 <= i < n && #[trigger] visited@[i]
                        && !coords_contain(search_coords@, i / w, i % w)
                        ==> neighbors_visited(g, visited@, h, w, i / w, i % w),
            decreases n - count_true(visited@), search_coords@.len(),
        {
            let ghost m_top = moves_encoded@;
            let ghost v_top = visited@;
            let ghost s_top = search_coords@;

            let target = search_coords.pop().unwrap();
            let ghost s_pop = search_coords@;
            let ty = target.y;
            let tx = target.x;
            let ghost te = (ty as int) * w + (tx as int);
            proof {
                assert(s_top[s_top.len() - 1] == target);
                assert((ty as int) < h && (tx as int) < w && v_top[te]) by {
                    reveal(inv_stack);
                }
                lemma_enc_bound(ty as int, tx as int, h, w);
                lemma_encode_decode(ty as int, tx as int, w);
                assert(inv_stack(h, w, visited@, search_coords@)) by {
                    reveal(inv_stack);
                    assert forall|t: int| 0 <= t < s_pop.len()
                        implies ((#[trigger] s_pop[t]).y as int) < h && (s_pop[t].x as int) < w
                            && v_top[s_pop[t].y * w + s_pop[t].x] by {
                        assert(s_pop[t] == s_top[t]);
                    };
                }
            }

            if ty >= 1 {
                Self::try_step(map, height, width, ty, tx, ty - 1, tx,
                    &mut moves_encoded, &mut visited, &mut search_coords);
            }
            let ghost v_a = visited@;
            let ghost s_a = search_coords@;
            proof {
                assert(visited@[te]);
            }
            if ty + 1 < height {
                Self::try_step(map, height, width, ty, tx, ty + 1, tx,
                    &mut moves_encoded, &mut visited, &mut search_coords);
            }
            let ghost v_b = visited@;
            let ghost s_b = search_coords@;
            proof {
                assert(visited@[te]);
            }
            if tx >= 1 {
                Self::try_step(map, height, width, ty, tx, ty, tx - 1,
                    &mut moves_encoded, &mut visited, &mut search_coords);
            }
            let ghost v_c = visited@;
            let ghost s_c = search_coords@;
            proof {
                assert(visited@[te]);
            }
            if tx + 1 < width {
                Self::try_step(map, height, width, ty, tx, ty, tx + 1,
                    &mut moves_encoded, &mut visited, &mut search_coords);
            }

            proof {
                let v4 = visited@;
                let s4 = search_coords@;
                lemma_count_true_le_len(v4);
                if ty as int >= 1 {
                    lemma_enc_bound(ty as int - 1, tx as int, h, w);
                }
                if (ty as int) + 1 < h {
                    lemma_enc_bound(ty as int + 1, tx as int, h, w);
                }
                if tx as int >= 1 {
                    lemma_enc_bound(ty as int, tx as int - 1, h, w);
                }
                if (tx as int) + 1 < w {
                    lemma_enc_bound(ty as int, tx as int + 1, h, w);
                }

                // the probed neighbors of the popped cell are visited now
                assert((ty as int) >= 1 && !g[ty - 1][tx as int] ==> v4[(ty - 1) * w + (tx as int)]);
                assert((ty as int) + 1 < h && !g[ty + 1][tx as int] ==> v4[(ty + 1) * w + (tx as int)]);
                assert((tx as int) >= 1 && !g[ty as int][tx - 1] ==> v4[(ty as int) * w + (tx - 1)]);
                assert((tx as int) + 1 < w && !g[ty as int][tx + 1] ==> v4[(ty as int) * w + (tx + 1)]);

                assert forall|i: int|
                    0 <= i < n && #[trigger] v4[i] && !coords_contain(s4, i / w, i % w)
                    implies neighbors_visited(g, v4, h, w, i / w, i % w) by {
                    if i == te {
                        assert(neighbors_visited(g, v4, h, w, ty as int, tx as int));
                    } else if v_top[i] {
                        if coords_contain(s_top, i / w, i % w) {
                            let k = choose|k: int|
                                0 <= k < s_top.len() && (#[trigger] s_top[k]).y == i / w
                                    && s_top[k].x == i % w;
                            if k < s_top.len() - 1 {
                                assert(s_pop[k] == s_top[k]);
                                assert(coords_contain(s_pop, i / w, i % w));
                                lemma_contain_prefix(s_pop, s_a, i / w, i % w);
                                lemma_contain_prefix(s_a, s_b, i / w, i % w);
                                lemma_contain_prefix(s_b, s_c, i / w, i % w);
                                lemma_contain_prefix(s_c, s4, i / w, i % w);
                            } else {
                                assert(s_top[k] == target);
                                vstd::arithmetic::div_mod::lemma_fundamental_div_mod(i, w);
                                assert(i == (i / w) * w + i % w) by (nonlinear_arith)
                                    requires w >= 1 && i == w * (i / w) + i % w;
                                assert(i == te);
                            }
                        } else {
                            assert(neighbors_visited(g, v_top, h, w, i / w, i % w));
                            lemma_index_coords(i, h, w);
                            let iy = i / w;
                            let ix = i % w;
                            if iy >= 1 {
                                lemma_enc_bound(iy - 1, ix, h, w);
                            }
                            if iy + 1 < h {
                                lemma_enc_bound(iy + 1, ix, h, w);
                            }
                            if ix >= 1 {
                                lemma_enc_bound(iy, ix - 1, h, w);
                            }
                            if ix + 1 < w {
                                lemma_enc_bound(iy, ix + 1, h, w);
                            }
                        }
                    } else {
                        // the cell was visited by one of the four probes,
                        // which put it on the stack
                        if v_a[i] {
                            lemma_contain_prefix(s_a, s_b, i / w, i % w);
                            lemma_contain_prefix(s_b, s_c, i / w, i % w);
                            lemma_contain_prefix(s_c, s4, i / w, i % w);
                        } else if v_b[i] {
                            lemma_contain_prefix(s_b, s_c, i / w, i % w);
                            lemma_contain_prefix(s_c, s4, i / w, i % w);
                        } else if v_c[i] {
                            lemma_contain_prefix(s_c, s4, i / w, i % w);
                        }
                        assert(coords_contain(s4, i / w, i % w));
                    }
                };
            }
        }

        proof {
            lemma_search_complete(g, h, w, moves_encoded@, visited@, search_coords@);
        }
        moves_encoded
    }

    /// Reconstructs the route from the goal back toward the start by
    /// following the parent links: the returned sequence begins at the goal
    /// and ends on a cardinal neighbor of the start, which itself is not
    /// included. Fails with `DisconnectedGoal` when the goal carries no
    /// link, that is, when the search never reached it.
    pub fn ans_route(&self, moves: &Vec<usize>) -> (r: Result<Coords, MazeError>)
        requires
            self.wf(),
            route_links_ok(self.height as int, self.width as int, moves@),
        ensures
            ({
                let h = self.height as int;
                let w = self.width as int;
                match r {
                    Ok(path) => {
                        &&& moves@[w + 1] != 0
                        &&& path@.len() >= 1
                        &&& path@.len() <= h * w
                        &&& path@[0].y == 1 && path@[0].x == 1
                        &&& forall|k: int|
                            0 <= k < path@.len()
                                ==> ((#[trigger] path@[k]).y as int) < h && (path@[k].x as int) < w
                                    && moves@[path@[k].y * w + path@[k].x] != 0
                                    && !(path@[k].y == h - 2 && path@[k].x == w - 2)
                        &&& forall|k: int|
                            0 <= k < path@.len() - 1
                                ==> adjacent((#[trigger] path@[k]).y as int, path@[k].x as int,
                                    path@[k + 1].y as int, path@[k + 1].x as int)
                        &&& adjacent(path@.last().y as int, path@.last().x as int, h - 2, w - 2)
                    },
                    Err(e) => e == MazeError::DisconnectedGoal && moves@[w + 1] == 0,
                }
            }),
    {
        let height = self.height;
        let width = self.width;
        let ghost h = height as int;
        let ghost w = width as int;
        let ghost n = h * w;
        let ghost senc = start_enc(h, w);

        let mut ans_coords: Coords = Vec::new();
        proof {
            lemma_enc_bound(1, 1, h, w);
            lemma_encode_decode(1, 1, w);
            lemma_enc_bound(h - 2, w - 2, h, w);
            lemma_encode_decode(h - 2, w - 2, w);
            assert(w * 1 + 1 == 1 * w + 1);
        }
        let mut current_index = MazeHelper::encode_coord(&self.goal, width);
        proof {
            assert(current_index as int == w + 1);
        }

        // a goal that carries no link was never reached by the search
        if moves[current_index] == 0 {
            return Err(MazeError::DisconnectedGoal);
        }

        let ghost mut fuel: nat = n as nat;

        loop
            invariant_except_break
                (current_index as int) < n,
                reaches_start(moves@, senc, current_index as int, fuel),
                ans_coords@.len() + fuel == n,
                ans_coords@.len() >= 1 ==> moves@[ans_coords@.last().y * w + ans_coords@.last().x] - 1
                    == current_index as int,
                ans_coords@.len() == 0 ==> current_index as int == w + 1 && moves@[w + 1] != 0,
            invariant
                h == height as int && w == width as int,
                n == h * w,
                n <= usize::MAX,
                dims_ok(h, w),
                senc == start_enc(h, w),
                route_links_ok(h, w, moves@),
                self.start.y == height - 2 && self.start.x == width - 2,
                moves@[w + 1] != 0,
                ans_coords@.len() >= 1 ==> ans_coords@[0].y == 1 && ans_coords@[0].x == 1,
                forall|k: int|
                    0 <= k < ans_coords@.len()
                        ==> ((#[trigger] ans_coords@[k]).y as int) < h
                            && (ans_coords@[k].x as int) < w
                            && moves@[ans_coords@[k].y * w + ans_coords@[k].x] != 0
                            && !(ans_coords@[k].y == h - 2 && ans_coords@[k].x == w - 2),
                forall|k: int|
                    0 <= k < ans_coords@.len() - 1
                        ==> adjacent((#[trigger] ans_coords@[k]).y as int, ans_coords@[k].x as int,
                            ans_coords@[k + 1].y as int, ans_coords@[k + 1].x as int),
            ensures
                ans_coords@.len() >= 1,
                ans_coords@.len() <= n,
                moves@[ans_coords@.last().y * w + ans_coords@.last().x] - 1 == senc,
            decreases fuel,
        {
            let current_coord = MazeHelper::decode_encoded_coord(current_index, width);
            proof {
                lemma_index_coords(current_index as int, h, w);
                lemma_encode_decode(h - 2, w - 2, w);
                lemma_encode_decode(1, 1, w);
                if ans_coords@.len() == 0 {
                    assert(current_index as int == 1 * w + 1);
                }
            }

            if current_coord.y == self.start.y && current_coord.x == self.start.x {
                proof {
                    // the walk has arrived: the current index is the start
                    assert(current_index as int == senc);
                    assert(ans_coords@.len() >= 1);
                }
                break;
            }

            proof {
                // the current cell is not the start, so by the chain bound
                // it carries a link and the fuel has not run out
                assert(current_index as int != senc);
                assert(fuel > 0 && moves@[current_index as int] != 0);
            }

            let ghost old_ans = ans_coords@;
            ans_coords.push(Coord::new(current_coord.y, current_coord.x));
            let m = moves[current_index];
            proof {
                let cur = current_index as int;
                assert(ans_coords@.last().y * w + ans_coords@.last().x == cur);
                if old_ans.len() >= 1 {
                    let prev = old_ans.last();
                    let pe = prev.y * w + prev.x;
                    lemma_enc_bound(prev.y as int, prev.x as int, h, w);
                    lemma_encode_decode(prev.y as int, prev.x as int, w);
                    assert(moves@[pe] - 1 == cur);
                    assert(adjacent(pe / w, pe % w, (moves@[pe] - 1) / w, (moves@[pe] - 1) % w));
                    assert(adjacent(prev.y as int, prev.x as int,
                        ans_coords@.last().y as int, ans_coords@.last().x as int));
                }
            }
            current_index = m - 1;
            proof {
                fuel = (fuel - 1) as nat;
            }
        }

        proof {
            let last = ans_coords@.last();
            let le = last.y * w + last.x;
            lemma_enc_bound(last.y as int, last.x as int, h, w);
            lemma_encode_decode(last.y as int, last.x as int, w);
            assert(adjacent(le / w, le % w, (moves@[le] - 1) / w, (moves@[le] - 1) % w));
            assert((moves@[le] - 1) / w == h - 2 && (moves@[le] - 1) % w == w - 2);
        }
        Ok(ans_coords)
    }
}

} // verus!
