use crate::components::Position;
use crate::map::{lemma_cell_index_bounds, lemma_index_to_cell, MAP_HEIGHT, MAP_WIDTH, TileMap, TileType};
use crate::map_builder::common::{
    BuildError, count_tiles, exit_placed, generate_voronoi_spawn_regions, lemma_count_tiles_none,
    lemma_count_tiles_update, place_exit, playable, region_members,
};
use crate::map_builder::distance::{CARDINAL_COST, MAX_COST, terrain_of};
use crate::random::roll_dice;
use rltk::RandomNumberGenerator;
use std::collections::HashMap;
use vstd::prelude::*;

verus! {

pub const TOP: usize = 0;

pub const RIGHT: usize = 1;

pub const BOTTOM: usize = 2;

pub const LEFT: usize = 3;

// Cell
// =========================================================================
/// One cell of the maze, with a wall on each of its four sides.
#[derive(Copy, Clone, Debug)]
pub struct Cell {
    pub row: i32,
    pub column: i32,
    pub walls: [bool; 4],
    pub visited: bool,
}

impl Cell {
    pub fn new(row: i32, column: i32) -> (cell: Cell)
        ensures
            cell.row == row,
            cell.column == column,
            !cell.visited,
            forall|side: int| 0 <= side < 4 ==> #[trigger] cell.walls@[side],
    {
        Cell { row, column, walls: [true, true, true, true], visited: false }
    }

    /// Takes down the wall between this cell and `next`, on both sides,
    /// where `next` lies directly beside, above or below this cell.
    pub fn remove_walls(&mut self, next: &mut Cell)
        requires
            i32::MIN <= old(self).column - old(next).column <= i32::MAX,
            i32::MIN <= old(self).row - old(next).row <= i32::MAX,
        ensures
            final(self).row == old(self).row,
            final(self).column == old(self).column,
            final(self).visited == old(self).visited,
            final(next).row == old(next).row,
            final(next).column == old(next).column,
            final(next).visited == old(next).visited,
            ({
                let x = old(self).column - old(next).column;
                let y = old(self).row - old(next).row;
                let (mine, theirs): (int, int) = if x == 1 {
                    (3, 1)
                } else if x == -1 {
                    (1, 3)
                } else if y == 1 {
                    (0, 2)
                } else if y == -1 {
                    (2, 0)
                } else {
                    (-1, -1)
                };
                &&& forall|side: int|
                    0 <= side < 4 ==> #[trigger] final(self).walls@[side] == (side != mine && old(self).walls@[side])
                &&& forall|side: int|
                    0 <= side < 4 ==> #[trigger] final(next).walls@[side] == (side != theirs && old(next).walls@[side])
            }),
    {
        let x: i32 = self.column - next.column;
        let y: i32 = self.row - next.row;
        if x == 1 {
            self.walls[LEFT] = false;
            next.walls[RIGHT] = false;
        } else if x == -1 {
            self.walls[RIGHT] = false;
            next.walls[LEFT] = false;
        } else if y == 1 {
            self.walls[TOP] = false;
            next.walls[BOTTOM] = false;
        } else if y == -1 {
            self.walls[BOTTOM] = false;
            next.walls[TOP] = false;
        }
    }
}

// Grid
// =========================================================================
/// The cells of a maze, row by row, and the state of the walk that
/// carves it.
pub struct Grid {
    pub width: i32,
    pub height: i32,
    pub cells: Vec<Cell>,
    pub backtrace: Vec<usize>,
    pub current: usize,
}

/// How many of the first `n` cells have not been visited.
pub open spec fn unvisited(cells: Seq<Cell>, n: int) -> int
    decreases n,
{
    if n <= 0 {
        0
    } else {
        unvisited(cells, n - 1) + if cells[n - 1].visited {
            0int
        } else {
            1int
        }
    }
}

proof fn lemma_unvisited_update(cells: Seq<Cell>, i: int, cell: Cell, n: int)
    requires
        0 <= i < cells.len(),
        0 <= n <= cells.len(),
        cell.visited,
    ensures
        unvisited(cells.update(i, cell), n) == unvisited(cells, n) - if i < n && !cells[i].visited {
            1int
        } else {
            0int
        },
        unvisited(cells, n) >= 0,
    decreases n,
{
    if n > 0 {
        lemma_unvisited_update(cells, i, cell, n - 1);
    }
}

proof fn lemma_all_walled(cells: Seq<Cell>, n: int)
    requires
        0 <= n <= cells.len(),
        forall|i: int, side: int| 0 <= i < cells.len() && 0 <= side < 4 ==> #[trigger] cells[i].walls@[side],
    ensures
        sides_open(cells, n) == 0,
        ways_open(cells, n) == 0,
    decreases n,
{
    if n > 0 {
        lemma_all_walled(cells, n - 1);
        assert(cells[n - 1].walls@[0] && cells[n - 1].walls@[1] && cells[n - 1].walls@[2] && cells[n - 1].walls@[3]);
    }
}

proof fn lemma_none_visited(cells: Seq<Cell>, n: int)
    requires
        0 <= n <= cells.len(),
        forall|i: int| 0 <= i < cells.len() ==> !(#[trigger] cells[i]).visited,
    ensures
        unvisited(cells, n) == n,
    decreases n,
{
    if n > 0 {
        lemma_none_visited(cells, n - 1);
    }
}

proof fn lemma_all_visited_count(cells: Seq<Cell>, n: int)
    requires
        0 <= n <= cells.len(),
        forall|i: int| 0 <= i < cells.len() ==> (#[trigger] cells[i]).visited,
    ensures
        unvisited(cells, n) == 0,
    decreases n,
{
    if n > 0 {
        lemma_all_visited_count(cells, n - 1);
    }
}

proof fn lemma_unvisited_nonnegative(cells: Seq<Cell>, n: int)
    ensures
        unvisited(cells, n) >= 0,
    decreases n,
{
    if n > 0 {
        lemma_unvisited_nonnegative(cells, n - 1);
    }
}

/// Whether `cell` opens the tile `(tx, ty)`: the cell in row `r` and
/// column `c` stands at `(2c + 2, 2r + 2)`, and opens that tile and the
/// tile towards each side on which it has no wall.
pub open spec fn opens(cell: Cell, tx: int, ty: int) -> bool {
    let x = 2 * (cell.column + 1);
    let y = 2 * (cell.row + 1);
    ||| tx == x && ty == y
    ||| !cell.walls@[0] && tx == x && ty == y - 1
    ||| !cell.walls@[1] && tx == x + 1 && ty == y
    ||| !cell.walls@[2] && tx == x && ty == y + 1
    ||| !cell.walls@[3] && tx == x - 1 && ty == y
}

/// Some one of the first `n` cells opens the tile `(tx, ty)`.
pub open spec fn opened(cells: Seq<Cell>, n: int, tx: int, ty: int) -> bool {
    exists|j: int| 0 <= j < n && opens(#[trigger] cells[j], tx, ty)
}

/// How many of the four walls of `cell` are down.
pub open spec fn walls_down(cell: Cell) -> int {
    (if cell.walls@[0] {
        0int
    } else {
        1int
    }) + (if cell.walls@[1] {
        0int
    } else {
        1int
    }) + (if cell.walls@[2] {
        0int
    } else {
        1int
    }) + (if cell.walls@[3] {
        0int
    } else {
        1int
    })
}

/// How many walls of the first `n` cells are down, each passage counted
/// on both its sides.
pub open spec fn sides_open(cells: Seq<Cell>, n: int) -> int
    decreases n,
{
    if n <= 0 {
        0
    } else {
        sides_open(cells, n - 1) + walls_down(cells[n - 1])
    }
}

/// How many passages lead out of `cell` to the right or downwards.
pub open spec fn ways_down(cell: Cell) -> int {
    (if cell.walls@[1] {
        0int
    } else {
        1int
    }) + (if cell.walls@[2] {
        0int
    } else {
        1int
    })
}

/// How many passages lead out of the first `n` cells to the right or
/// downwards.
pub open spec fn ways_open(cells: Seq<Cell>, n: int) -> int
    decreases n,
{
    if n <= 0 {
        0
    } else {
        ways_open(cells, n - 1) + ways_down(cells[n - 1])
    }
}

proof fn lemma_ways_open_update(cells: Seq<Cell>, i: int, cell: Cell, n: int)
    requires
        0 <= i < cells.len(),
        0 <= n <= cells.len(),
    ensures
        ways_open(cells.update(i, cell), n) == ways_open(cells, n) + if i < n {
            ways_down(cell) - ways_down(cells[i])
        } else {
            0int
        },
    decreases n,
{
    if n > 0 {
        lemma_ways_open_update(cells, i, cell, n - 1);
    }
}

proof fn lemma_sides_open_update(cells: Seq<Cell>, i: int, cell: Cell, n: int)
    requires
        0 <= i < cells.len(),
        0 <= n <= cells.len(),
    ensures
        sides_open(cells.update(i, cell), n) == sides_open(cells, n) + if i < n {
            walls_down(cell) - walls_down(cells[i])
        } else {
            0int
        },
    decreases n,
{
    if n > 0 {
        lemma_sides_open_update(cells, i, cell, n - 1);
    }
}

/// 1 where the tile at `(x, y)` is not floor yet and `wanted` says that it
/// is to become floor, and 0 otherwise.
pub open spec fn fresh(map: &TileMap, wanted: bool, x: int, y: int) -> int {
    if wanted && map.at(x, y) != TileType::Floor {
        1
    } else {
        0
    }
}

/// How many of the tiles that `cell` opens are not floor yet.
pub open spec fn fresh_tiles(map: &TileMap, cell: Cell) -> int {
    let x = 2 * (cell.column + 1);
    let y = 2 * (cell.row + 1);
    fresh(map, true, x, y) + fresh(map, !cell.walls@[0], x, y - 1) + fresh(map, !cell.walls@[1], x + 1, y) + fresh(
        map,
        !cell.walls@[2],
        x,
        y + 1,
    ) + fresh(map, !cell.walls@[3], x - 1, y)
}

/// Puts floor on one tile that is to become floor, and leaves the tile
/// alone otherwise.
fn open_tile(map: &mut TileMap, wanted: bool, x: i32, y: i32)
    requires
        old(map).wf(),
        old(map).in_bounds(x as int, y as int),
    ensures
        final(map).same_frame(old(map)),
        forall|i: int|
            0 <= i < final(map).tiles@.len() ==> #[trigger] final(map).tiles@[i] == (if wanted && old(map).x_of(i) == x
                && old(map).y_of(i) == y {
                TileType::Floor
            } else {
                old(map).tiles@[i]
            }),
        count_tiles(final(map).tiles@, TileType::Floor, final(map).tiles@.len() as int) == count_tiles(
            old(map).tiles@,
            TileType::Floor,
            old(map).tiles@.len() as int,
        ) + fresh(old(map), wanted, x as int, y as int),
{
    if wanted {
        proof {
            old(map).lemma_idx_bounds(x as int, y as int);
            lemma_count_tiles_update(
                old(map).tiles@,
                TileType::Floor,
                old(map).idx(x as int, y as int),
                TileType::Floor,
                old(map).tiles@.len() as int,
            );
        }
        map.set_tile(x, y, TileType::Floor);
    }
}

/// Draws one cell of a maze: floor where the cell stands and towards
/// each side on which it has no wall.
pub fn draw_cell(map: &mut TileMap, cell: Cell)
    requires
        old(map).wf(),
        0 <= cell.column,
        0 <= cell.row,
        2 * (cell.column + 1) + 1 < old(map).width,
        2 * (cell.row + 1) + 1 < old(map).height,
    ensures
        final(map).same_frame(old(map)),
        forall|i: int|
            0 <= i < final(map).tiles@.len() ==> #[trigger] final(map).tiles@[i] == (if opens(
                cell,
                old(map).x_of(i),
                old(map).y_of(i),
            ) {
                TileType::Floor
            } else {
                old(map).tiles@[i]
            }),
        count_tiles(final(map).tiles@, TileType::Floor, final(map).tiles@.len() as int) == count_tiles(
            old(map).tiles@,
            TileType::Floor,
            old(map).tiles@.len() as int,
        ) + fresh_tiles(old(map), cell),
{
    let x: i32 = (cell.column + 1) * 2;
    let y: i32 = (cell.row + 1) * 2;
    proof {
        old(map).lemma_idx_bounds(x as int, y as int);
        old(map).lemma_idx_bounds(x as int, y - 1);
        old(map).lemma_idx_bounds(x + 1, y as int);
        old(map).lemma_idx_bounds(x as int, y + 1);
        old(map).lemma_idx_bounds(x - 1, y as int);
    }
    open_tile(map, true, x, y);
    let ghost m1 = *map;
    open_tile(map, !cell.walls[TOP], x, y - 1);
    let ghost m2 = *map;
    open_tile(map, !cell.walls[RIGHT], x + 1, y);
    let ghost m3 = *map;
    open_tile(map, !cell.walls[BOTTOM], x, y + 1);
    let ghost m4 = *map;
    open_tile(map, !cell.walls[LEFT], x - 1, y);
    proof {
        assert(m1.at(x as int, y - 1) == old(map).at(x as int, y - 1));
        assert(m2.at(x + 1, y as int) == old(map).at(x + 1, y as int));
        assert(m3.at(x as int, y + 1) == old(map).at(x as int, y + 1));
        assert(m4.at(x - 1, y as int) == old(map).at(x - 1, y as int));
    }
}

/// The side of a neighbouring cell that faces side `side` of a cell.
pub open spec fn across(side: int) -> int {
    if side == 0 {
        2
    } else if side == 1 {
        3
    } else if side == 2 {
        0
    } else {
        1
    }
}

impl Grid {
    /// The index of the cell that lies beyond side `side` of cell `c`, or
    /// -1 where the grid ends there.
    pub open spec fn beyond(&self, c: int, side: int) -> int {
        let row = c / (self.width as int);
        let column = c % (self.width as int);
        if side == 0 {
            self.index_of(row - 1, column)
        } else if side == 1 {
            self.index_of(row, column + 1)
        } else if side == 2 {
            self.index_of(row + 1, column)
        } else {
            self.index_of(row, column - 1)
        }
    }

    /// A passage leads from cell `a` through its side `side` to cell `b`:
    /// `b` lies beyond that side, and the wall between the two is down on
    /// both sides.
    pub open spec fn passage_on(&self, a: int, side: int, b: int) -> bool {
        &&& 0 <= a < self.cells@.len()
        &&& 0 <= b < self.cells@.len()
        &&& 0 <= side < 4
        &&& self.beyond(a, side) == b
        &&& !self.cells@[a].walls@[side]
        &&& !self.cells@[b].walls@[across(side)]
    }

    /// A passage leads from cell `a` to cell `b`.
    pub open spec fn passage(&self, a: int, b: int) -> bool {
        exists|side: int| #[trigger] self.passage_on(a, side, b)
    }

    /// Side `side` of cell `c` has its wall, or a passage leads through
    /// it.
    pub open spec fn wall_paired(&self, c: int, side: int) -> bool {
        !self.cells@[c].walls@[side] ==> self.passage_on(c, side, self.beyond(c, side))
    }

    /// Walls are down only between neighbouring cells, and then on both
    /// sides.
    pub open spec fn paired(&self) -> bool {
        forall|c: int, side: int| 0 <= c < self.cells@.len() && 0 <= side < 4 ==> #[trigger] self.wall_paired(c, side)
    }

    /// `p` lists the cells of a way from the first cell to cell `to`,
    /// each passage leading to the next.
    pub open spec fn is_trail(&self, p: Seq<int>, to: int) -> bool {
        &&& p.len() >= 1
        &&& p[0] == 0
        &&& p.last() == to
        &&& forall|k: int| 0 <= k < p.len() - 1 ==> self.passage(#[trigger] p[k], p[k + 1])
    }

    /// Passages lead from the first cell to cell `c`.
    pub open spec fn joined(&self, c: int) -> bool {
        exists|p: Seq<int>| #[trigger] self.is_trail(p, c)
    }

    /// Every side of cell `c` has its wall.
    pub open spec fn walled(&self, c: int) -> bool {
        forall|side: int| 0 <= side < 4 ==> #[trigger] self.cells@[c].walls@[side]
    }

    /// What holds of the walls while the maze is carved and after: walls
    /// are down in pairs, a cell not yet visited has all its walls, and
    /// passages lead from the first cell to every visited one.
    pub open spec fn carved(&self) -> bool {
        &&& self.paired()
        &&& forall|c: int| 0 <= c < self.cells@.len() && !(#[trigger] self.cells@[c]).visited ==> self.walled(c)
        &&& forall|c: int| 0 <= c < self.cells@.len() && (#[trigger] self.cells@[c]).visited ==> self.joined(c)
    }

    /// The sides of the two cells that face each other after a step of
    /// the walk from cell `a` to the cell `b` beside it.
    pub open spec fn facing(&self, a: int, b: int) -> int {
        let w = self.width as int;
        if b % w == a % w + 1 {
            1
        } else if b % w == a % w - 1 {
            3
        } else if b / w == a / w + 1 {
            2
        } else {
            0
        }
    }

    /// Of two cells beside each other, each lies beyond the side of the
    /// other that faces it.
    pub proof fn lemma_facing(&self, a: int, b: int)
        requires
            self.wf(),
            0 <= a < self.cells@.len(),
            0 <= b < self.cells@.len(),
            ({
                let w = self.width as int;
                (a / w == b / w && (a % w - b % w == 1 || a % w - b % w == -1)) || (a % w == b % w && (a / w - b / w
                    == 1 || a / w - b / w == -1))
            }),
        ensures
            0 <= self.facing(a, b) < 4,
            self.beyond(a, self.facing(a, b)) == b,
            self.beyond(b, across(self.facing(a, b))) == a,
    {
        let w = self.width as int;
        let h = self.height as int;
        self.lemma_nonempty();
        lemma_index_to_cell(w, h, a);
        lemma_index_to_cell(w, h, b);
        if a / w != b / w {
            assert((a / w + 1) * w == (a / w) * w + w) by (nonlinear_arith);
            assert((a / w - 1) * w == (a / w) * w - w) by (nonlinear_arith);
            assert((b / w + 1) * w == (b / w) * w + w) by (nonlinear_arith);
            assert((b / w - 1) * w == (b / w) * w - w) by (nonlinear_arith);
        }
    }

    /// Between a cell and a cell beside it that has all its walls, the
    /// wall stands on both sides.
    pub proof fn lemma_wall_between_stands(&self, a: int, b: int)
        requires
            self.wf(),
            self.paired(),
            0 <= a < self.cells@.len(),
            0 <= b < self.cells@.len(),
            self.walled(b),
            ({
                let w = self.width as int;
                (a / w == b / w && (a % w - b % w == 1 || a % w - b % w == -1)) || (a % w == b % w && (a / w - b / w
                    == 1 || a / w - b / w == -1))
            }),
        ensures
            self.cells@[a].walls@[self.facing(a, b)],
            self.cells@[b].walls@[across(self.facing(a, b))],
    {
        self.lemma_facing(a, b);
        let s = self.facing(a, b);
        assert(self.wall_paired(a, s));
        assert(self.cells@[b].walls@[across(s)]);
    }

    /// The walk has taken down the wall between cell `a` and the
    /// unvisited cell `b` beside it, or no wall at all: then the walls
    /// are still down in pairs, every way from the first cell is still
    /// one, and a passage leads from `a` to `b`.
    pub proof fn lemma_walls_fell(&self, now: &Grid, a: int, b: int, fell: bool)
        requires
            self.wf(),
            now.wf(),
            self.width == now.width,
            self.height == now.height,
            self.paired(),
            fell ==> 0 <= a < self.cells@.len() && 0 <= b < self.cells@.len() && ({
                let w = self.width as int;
                (a / w == b / w && (a % w - b % w == 1 || a % w - b % w == -1)) || (a % w == b % w && (a / w - b / w
                    == 1 || a / w - b / w == -1))
            }),
            forall|c: int, side: int|
                0 <= c < self.cells@.len() && 0 <= side < 4 ==> #[trigger] now.cells@[c].walls@[side] == (
                self.cells@[c].walls@[side] && !(fell && ((c == a && side == self.facing(a, b)) || (c == b && side
                    == across(self.facing(a, b)))))),
        ensures
            now.paired(),
            forall|c: int| self.joined(c) ==> #[trigger] now.joined(c),
            fell ==> now.passage(a, b),
            fell && self.joined(a) ==> now.joined(b),
    {
        if fell {
            self.lemma_facing(a, b);
            let s = self.facing(a, b);
            assert(now.beyond(a, s) == b);
            assert(!now.cells@[a].walls@[s]);
            assert(!now.cells@[b].walls@[across(s)]);
            assert(now.passage_on(a, s, b));
        }
        assert forall|c: int, side: int| 0 <= c < now.cells@.len() && 0 <= side < 4 implies #[trigger] now.wall_paired(
            c,
            side,
        ) by {
            if !now.cells@[c].walls@[side] {
                if !self.cells@[c].walls@[side] {
                    assert(self.wall_paired(c, side));
                    let d = self.beyond(c, side);
                    assert(self.passage_on(c, side, d));
                    assert(!now.cells@[d].walls@[across(side)]);
                    assert(now.beyond(c, side) == d);
                    assert(now.passage_on(c, side, d));
                } else {
                    let s = self.facing(a, b);
                    if c == a && side == s {
                        assert(now.passage_on(a, s, b));
                    } else {
                        assert(c == b && side == across(s));
                        assert(now.beyond(b, across(s)) == a);
                        assert(across(across(s)) == s);
                        assert(now.passage_on(b, across(s), a));
                    }
                }
            }
        }
        assert forall|c: int| self.joined(c) implies #[trigger] now.joined(c) by {
            let p = choose|p: Seq<int>| #[trigger] self.is_trail(p, c);
            self.lemma_trail_stays(now, p, c);
        }
        if fell && self.joined(a) {
            let p = choose|p: Seq<int>| #[trigger] self.is_trail(p, a);
            self.lemma_trail_stays(now, p, a);
            let q = p.push(b);
            assert forall|k: int| 0 <= k < q.len() - 1 implies now.passage(#[trigger] q[k], q[k + 1]) by {
                if k < p.len() - 1 {
                    assert(now.passage(p[k], p[k + 1]));
                }
            }
            assert(now.is_trail(q, b));
        }
    }

    /// In a maze of more than one cell, the first cell has a passage to
    /// the right or downwards.
    pub proof fn lemma_first_cell_opens(&self)
        requires
            self.wf(),
            self.cells@.len() >= 2,
            self.joined(1),
        ensures
            !self.cells@[0].walls@[1] || !self.cells@[0].walls@[2],
    {
        let p = choose|p: Seq<int>| #[trigger] self.is_trail(p, 1);
        assert(self.passage(p[0int], p[0int + 1]));
        let side = choose|side: int| #[trigger] self.passage_on(0, side, p[1]);
        self.lemma_nonempty();
        assert(0int / (self.width as int) == 0 && 0int % (self.width as int) == 0);
    }

    /// A passage depends on the cells alone, not on where the walk
    /// stands.
    pub proof fn lemma_passage_stays(&self, opened_up: &Grid, now: &Grid, a: int, b: int)
        requires
            opened_up.width == now.width,
            opened_up.height == now.height,
            opened_up.cells@ == now.cells@,
            opened_up.passage(a, b),
        ensures
            now.passage(a, b),
    {
        let side = choose|side: int| #[trigger] opened_up.passage_on(a, side, b);
        assert(now.beyond(a, side) == b);
        assert(now.passage_on(a, side, b));
    }

    /// What holds of the walls depends on the cells alone, not on where
    /// the walk stands.
    pub proof fn lemma_carved_stays(&self, now: &Grid)
        requires
            self.wf(),
            now.wf(),
            self.width == now.width,
            self.height == now.height,
            self.cells@ == now.cells@,
            self.carved(),
        ensures
            now.carved(),
    {
        self.lemma_walls_fell(now, 0, 0, false);
        assert forall|c: int| 0 <= c < now.cells@.len() && !(#[trigger] now.cells@[c]).visited implies now.walled(
            c,
        ) by {
            assert(self.walled(c));
        }
        assert forall|c: int| 0 <= c < now.cells@.len() && (#[trigger] now.cells@[c]).visited implies now.joined(
            c,
        ) by {
            assert(self.joined(c));
        }
    }

    /// A way from the first cell stays one while walls only fall.
    pub proof fn lemma_trail_stays(&self, now: &Grid, p: Seq<int>, to: int)
        requires
            self.width == now.width,
            self.height == now.height,
            self.cells@.len() == now.cells@.len(),
            forall|c: int, side: int|
                0 <= c < self.cells@.len() && 0 <= side < 4 && !self.cells@[c].walls@[side]
                    ==> !(#[trigger] now.cells@[c].walls@[side]),
            self.is_trail(p, to),
        ensures
            now.is_trail(p, to),
    {
        assert forall|k: int| 0 <= k < p.len() - 1 implies now.passage(#[trigger] p[k], p[k + 1]) by {
            assert(self.passage(p[k], p[k + 1]));
            let side = choose|side: int| #[trigger] self.passage_on(p[k], side, p[k + 1]);
            assert(now.beyond(p[k], side) == p[k + 1]);
            assert(now.passage_on(p[k], side, p[k + 1]));
        }
    }

    /// The cells stand row by row, each knowing its place; the walk is
    /// at a cell, and remembers cells.
    pub open spec fn wf(&self) -> bool {
        &&& 0 <= self.width
        &&& 0 <= self.height
        &&& self.width * self.height <= i32::MAX
        &&& self.cells@.len() == self.width * self.height
        &&& forall|i: int|
            0 <= i < self.cells@.len() ==> (#[trigger] self.cells@[i]).row == i / (self.width as int)
                && self.cells@[i].column == i % (self.width as int)
        &&& forall|k: int| 0 <= k < self.backtrace@.len() ==> #[trigger] self.backtrace@[k] < self.cells@.len()
        &&& self.current < self.cells@.len() || self.cells@.len() == 0
    }

    /// The index of the cell in `row` and `column`, or -1 where there is
    /// no such cell.
    pub open spec fn index_of(&self, row: int, column: int) -> int {
        if row < 0 || column < 0 || column > self.width - 1 || row > self.height - 1 {
            -1
        } else {
            column + row * self.width
        }
    }

    /// The cell with index `i` can be walked to: it exists and has not
    /// been visited.
    pub open spec fn available(&self, i: int) -> bool {
        i != -1 && 0 <= i < self.cells@.len() && !self.cells@[i].visited
    }

    /// The cells around the current one that can be walked to: above,
    /// right, below, left.
    pub open spec fn neighbours(&self) -> Seq<usize> {
        let row = self.cells@[self.current as int].row as int;
        let column = self.cells@[self.current as int].column as int;
        let up = self.index_of(row - 1, column);
        let right = self.index_of(row, column + 1);
        let down = self.index_of(row + 1, column);
        let left = self.index_of(row, column - 1);
        (if self.available(up) {
            seq![up as usize]
        } else {
            seq![]
        }) + (if self.available(right) {
            seq![right as usize]
        } else {
            seq![]
        }) + (if self.available(down) {
            seq![down as usize]
        } else {
            seq![]
        }) + (if self.available(left) {
            seq![left as usize]
        } else {
            seq![]
        })
    }

    /// None of the four cells around cell `c` can be walked to.
    pub open spec fn stuck_at(&self, c: int) -> bool {
        let row = c / (self.width as int);
        let column = c % (self.width as int);
        &&& !self.available(self.index_of(row - 1, column))
        &&& !self.available(self.index_of(row, column + 1))
        &&& !self.available(self.index_of(row + 1, column))
        &&& !self.available(self.index_of(row, column - 1))
    }

    /// Every visited cell is where the walk stands, or is remembered, or
    /// has nowhere left to go.
    pub open spec fn settled(&self) -> bool {
        forall|c: int|
            0 <= c < self.cells@.len() && (#[trigger] self.cells@[c]).visited ==> c == self.current
                || self.backtrace@.contains(c as usize) || self.stuck_at(c)
    }

    /// Every cell has been visited.
    pub open spec fn all_visited(&self) -> bool {
        forall|c: int| 0 <= c < self.cells@.len() ==> (#[trigger] self.cells@[c]).visited
    }

    /// A cell that has nowhere left to go stays so when more cells are
    /// visited.
    proof fn lemma_stuck_stays(&self, later: &Grid, c: int)
        requires
            self.wf(),
            later.wf(),
            self.width == later.width,
            self.height == later.height,
            forall|i: int| 0 <= i < self.cells@.len() && (#[trigger] self.cells@[i]).visited ==> later.cells@[i].visited,
            self.stuck_at(c),
        ensures
            later.stuck_at(c),
    {
        let row = c / (self.width as int);
        let column = c % (self.width as int);
        let up = self.index_of(row - 1, column);
        let right = self.index_of(row, column + 1);
        let down = self.index_of(row + 1, column);
        let left = self.index_of(row, column - 1);
        if 0 <= up < self.cells@.len() {
            assert(self.cells@[up].visited ==> later.cells@[up].visited);
        }
        if 0 <= right < self.cells@.len() {
            assert(self.cells@[right].visited ==> later.cells@[right].visited);
        }
        if 0 <= down < self.cells@.len() {
            assert(self.cells@[down].visited ==> later.cells@[down].visited);
        }
        if 0 <= left < self.cells@.len() {
            assert(self.cells@[left].visited ==> later.cells@[left].visited);
        }
    }

    /// Where the first cell is visited and every visited cell has nowhere
    /// left to go, every cell is visited.
    proof fn lemma_all_visited(&self, c: int)
        requires
            self.wf(),
            self.cells@.len() > 0,
            self.cells@[0].visited,
            forall|v: int| 0 <= v < self.cells@.len() && (#[trigger] self.cells@[v]).visited ==> self.stuck_at(v),
            0 <= c < self.cells@.len(),
        ensures
            self.cells@[c].visited,
        decreases c,
    {
        if c > 0 {
            self.lemma_nonempty();
            let w = self.width as int;
            let h = self.height as int;
            lemma_index_to_cell(w, h, c);
            let row = c / w;
            let column = c % w;
            if column > 0 {
                lemma_cell_index_bounds(w, h, column - 1, row);
                self.lemma_all_visited(c - 1);
                assert(self.stuck_at(c - 1));
                assert(self.index_of(row, column) == c);
            } else {
                lemma_cell_index_bounds(w, h, column, row - 1);
                assert((row - 1) * w + column == c - w) by (nonlinear_arith)
                    requires
                        c == row * w + column,
                ;
                self.lemma_all_visited(c - w);
                assert(self.stuck_at(c - w));
                assert(self.index_of(row, column) == c);
            }
        }
    }

    /// A grid with cells has rows and columns.
    pub proof fn lemma_nonempty(&self)
        requires
            self.wf(),
            self.cells@.len() > 0,
        ensures
            self.width > 0,
            self.height > 0,
    {
        assert(self.width > 0 && self.height > 0) by (nonlinear_arith)
            requires
                self.width * self.height > 0,
                self.width >= 0,
                self.height >= 0,
        ;
    }

    pub fn new(width: i32, height: i32) -> (grid: Grid)
        requires
            0 <= width,
            0 <= height,
            width * height <= i32::MAX,
        ensures
            grid.wf(),
            grid.width == width,
            grid.height == height,
            grid.current == 0,
            grid.backtrace@.len() == 0,
            forall|i: int|
                0 <= i < grid.cells@.len() ==> !(#[trigger] grid.cells@[i]).visited && forall|side: int|
                    0 <= side < 4 ==> #[trigger] grid.cells@[i].walls@[side],
            forall|i: int| 0 <= i < grid.cells@.len() ==> grid.walled(i),
    {
        let mut grid = Grid { width, height, cells: Vec::new(), backtrace: Vec::new(), current: 0 };
        let mut row: i32 = 0;
        while row < height
            invariant
                0 <= width,
                0 <= height,
                width * height <= i32::MAX,
                0 <= row <= height,
                grid.width == width,
                grid.height == height,
                grid.current == 0,
                grid.backtrace@.len() == 0,
                grid.cells@.len() == row * width,
                forall|i: int|
                    0 <= i < grid.cells@.len() ==> (#[trigger] grid.cells@[i]).row == i / (width as int)
                        && grid.cells@[i].column == i % (width as int) && !grid.cells@[i].visited
                        && forall|side: int| 0 <= side < 4 ==> #[trigger] grid.cells@[i].walls@[side],
            decreases height - row,
        {
            let mut column: i32 = 0;
            while column < width
                invariant
                    0 <= width,
                    0 <= height,
                    width * height <= i32::MAX,
                    0 <= row < height,
                    0 <= column <= width,
                    grid.width == width,
                    grid.height == height,
                    grid.current == 0,
                    grid.backtrace@.len() == 0,
                    grid.cells@.len() == row * width + column,
                    forall|i: int|
                        0 <= i < grid.cells@.len() ==> (#[trigger] grid.cells@[i]).row == i / (width as int)
                            && grid.cells@[i].column == i % (width as int) && !grid.cells@[i].visited
                            && forall|side: int| 0 <= side < 4 ==> #[trigger] grid.cells@[i].walls@[side],
                decreases width - column,
            {
                proof {
                    lemma_cell_index_bounds(width as int, height as int, column as int, row as int);
                }
                grid.cells.push(Cell::new(row, column));
                column += 1;
            }
            proof {
                assert((row + 1) * width == row * width + width) by (nonlinear_arith);
            }
            row += 1;
        }
        proof {
            assert(height * width == width * height) by (nonlinear_arith);
        }
        grid
    }

    /// The index of the cell in `row` and `column`, or -1 where there is no such cell.
    pub fn calculate_index(&self, row: i32, column: i32) -> (idx: i32)
        requires
            self.wf(),
        ensures
            idx == self.index_of(row as int, column as int),
            idx != -1 ==> 0 <= idx < self.cells@.len() && self.cells@[idx as int].row == row
                && self.cells@[idx as int].column == column,
    {
        if row < 0 || column < 0 || column > self.width - 1 || row > self.height - 1 {
            -1
        } else {
            proof {
                lemma_cell_index_bounds(self.width as int, self.height as int, column as int, row as int);
                assert(row * self.width >= 0) by (nonlinear_arith)
                    requires
                        row >= 0,
                        self.width >= 0,
                ;
                assert(row * self.width == self.width * row) by (nonlinear_arith);
                assert(row * self.width + column < self.width * self.height);
            }
            column + (row * self.width)
        }
    }

    /// The cells around the current one that can be walked to.
    pub fn get_available_neighbours(&self) -> (neighbours: Vec<usize>)
        requires
            self.wf(),
            self.current < self.cells@.len(),
        ensures
            neighbours@ == self.neighbours(),
            forall|k: int|
                0 <= k < neighbours@.len() ==> (#[trigger] neighbours@[k]) < self.cells@.len()
                    && !self.cells@[neighbours@[k] as int].visited && neighbours@[k] != self.current && ({
                    let a = self.cells@[self.current as int];
                    let b = self.cells@[neighbours@[k] as int];
                    (a.row == b.row && (a.column - b.column == 1 || a.column - b.column == -1)) || (a.column
                        == b.column && (a.row - b.row == 1 || a.row - b.row == -1))
                }),
    {
        let mut neighbours: Vec<usize> = Vec::new();
        let current_row: i32 = self.cells[self.current].row;
        let current_column: i32 = self.cells[self.current].column;
        proof {
            self.lemma_nonempty();
            lemma_index_to_cell(self.width as int, self.height as int, self.current as int);
        }
        let up: i32 = self.calculate_index(current_row - 1, current_column);
        let right: i32 = self.calculate_index(current_row, current_column + 1);
        let down: i32 = self.calculate_index(current_row + 1, current_column);
        let left: i32 = self.calculate_index(current_row, current_column - 1);
        if up != -1 && !self.cells[up as usize].visited {
            neighbours.push(up as usize);
        }
        if right != -1 && !self.cells[right as usize].visited {
            neighbours.push(right as usize);
        }
        if down != -1 && !self.cells[down as usize].visited {
            neighbours.push(down as usize);
        }
        if left != -1 && !self.cells[left as usize].visited {
            neighbours.push(left as usize);
        }
        proof {
            assert(neighbours@ =~= self.neighbours());
        }
        neighbours
    }

    /// One of the cells around the current one that can be walked to,
    /// drawn at random; nothing where there is none.
    pub fn find_next_cell(&mut self, rng: &mut RandomNumberGenerator) -> (next: Option<usize>)
        requires
            old(self).wf(),
            old(self).current < old(self).cells@.len(),
        ensures
            *final(self) == *old(self),
            match next {
                Some(n) => old(self).neighbours().contains(n) && n < old(self).cells@.len()
                    && !old(self).cells@[n as int].visited && n != old(self).current && ({
                    let a = old(self).cells@[old(self).current as int];
                    let b = old(self).cells@[n as int];
                    (a.row == b.row && (a.column - b.column == 1 || a.column - b.column == -1)) || (a.column
                        == b.column && (a.row - b.row == 1 || a.row - b.row == -1))
                }),
                None => old(self).neighbours().len() == 0,
            },
            old(self).neighbours().len() == 1 ==> next == Some(old(self).neighbours()[0]),
    {
        let neighbours: Vec<usize> = self.get_available_neighbours();
        if neighbours.len() > 0 {
            return if neighbours.len() == 1 {
                Some(neighbours[0])
            } else {
                let pick: usize = (roll_dice(rng, 1, neighbours.len() as i32) - 1) as usize;
                Some(neighbours[pick])
            };
        }
        None
    }

    /// The walk's step to the cell `next` beside the current one: `next`
    /// is marked as visited, and the wall between the two is taken down
    /// on both sides.
    pub fn open_way(&mut self, next: usize)
        requires
            old(self).wf(),
            old(self).current < old(self).cells@.len(),
            next < old(self).cells@.len(),
            next != old(self).current,
            !old(self).cells@[next as int].visited,
            old(self).cells@[old(self).current as int].visited,
            old(self).cells@[old(self).current as int].walls@[old(self).facing(old(self).current as int, next as int)],
            old(self).cells@[next as int].walls@[across(old(self).facing(old(self).current as int, next as int))],
            ({
                let a = old(self).cells@[old(self).current as int];
                let b = old(self).cells@[next as int];
                (a.row == b.row && (a.column - b.column == 1 || a.column - b.column == -1)) || (a.column == b.column
                    && (a.row - b.row == 1 || a.row - b.row == -1))
            }),
        ensures
            final(self).wf(),
            final(self).width == old(self).width,
            final(self).height == old(self).height,
            final(self).current == old(self).current,
            final(self).backtrace@ == old(self).backtrace@,
            final(self).cells@.len() == old(self).cells@.len(),
            forall|c: int|
                0 <= c < final(self).cells@.len() && c != old(self).current && c != next ==> #[trigger] final(self).cells@[c] == old(self).cells@[c],
            final(self).cells@[old(self).current as int].visited,
            final(self).cells@[next as int].visited,
            unvisited(final(self).cells@, final(self).cells@.len() as int) == unvisited(
                old(self).cells@,
                old(self).cells@.len() as int,
            ) - 1,
            sides_open(final(self).cells@, final(self).cells@.len() as int) == sides_open(
                old(self).cells@,
                old(self).cells@.len() as int,
            ) + 2,
            ways_open(final(self).cells@, final(self).cells@.len() as int) == ways_open(
                old(self).cells@,
                old(self).cells@.len() as int,
            ) + 1,
            forall|c: int, side: int|
                0 <= c < final(self).cells@.len() && 0 <= side < 4 ==> #[trigger] final(self).cells@[c].walls@[side]
                    == (old(self).cells@[c].walls@[side] && !((c == old(self).current && side == old(self).facing(
                    old(self).current as int,
                    next as int,
                )) || (c == next && side == across(old(self).facing(old(self).current as int, next as int))))),
    {
        let ghost n = self.cells@.len() as int;
        let ghost marked = self.cells@;
        let mut there: Cell = self.cells[next];
        there.visited = true;
        self.cells[next] = there;
        proof {
            self.lemma_nonempty();
            lemma_unvisited_update(marked, next as int, there, n);
            lemma_sides_open_update(marked, next as int, there, n);
            lemma_ways_open_update(marked, next as int, there, n);
            lemma_index_to_cell(self.width as int, self.height as int, next as int);
            lemma_index_to_cell(self.width as int, self.height as int, self.current as int);
        }
        let lower: usize = if self.current < next { self.current } else { next };
        let higher: usize = if self.current < next { next } else { self.current };
        let mut cell1: Cell = self.cells[lower];
        let mut cell2: Cell = self.cells[higher];
        cell1.remove_walls(&mut cell2);
        let ghost walled = self.cells@;
        self.cells[lower] = cell1;
        let ghost half = self.cells@;
        self.cells[higher] = cell2;
        proof {
            lemma_unvisited_update(walled, lower as int, cell1, n);
            lemma_unvisited_update(half, higher as int, cell2, n);
            lemma_sides_open_update(walled, lower as int, cell1, n);
            lemma_sides_open_update(half, higher as int, cell2, n);
            lemma_ways_open_update(walled, lower as int, cell1, n);
            lemma_ways_open_update(half, higher as int, cell2, n);
            let a = self.current as int;
            let b = next as int;
            let w = self.width as int;
            assert(a / w == old(self).cells@[a].row && a % w == old(self).cells@[a].column);
            assert(b / w == old(self).cells@[b].row && b % w == old(self).cells@[b].column);
            assert(walls_down(cell1) == walls_down(walled[lower as int]) + 1);
            assert(walls_down(cell2) == walls_down(half[higher as int]) + 1);
            let lo = lower as int;
            let hi = higher as int;
            lemma_index_to_cell(w, self.height as int, lo);
            lemma_index_to_cell(w, self.height as int, hi);
            assert(lo == (lo / w) * w + lo % w && hi == (hi / w) * w + hi % w);
            if lo / w != hi / w {
                assert((hi / w + 1) * w == (hi / w) * w + w) by (nonlinear_arith);
                assert((lo / w + 1) * w == (lo / w) * w + w) by (nonlinear_arith);
            }
            assert(old(self).cells@[lo].column - old(self).cells@[hi].column == -1 || (old(self).cells@[lo].column
                == old(self).cells@[hi].column && old(self).cells@[lo].row - old(self).cells@[hi].row == -1));
            assert(ways_down(cell1) == ways_down(walled[lower as int]) + 1);
            assert(ways_down(cell2) == ways_down(half[higher as int]));
        }
    }

    /// No cell before cell `k` opens the tile where cell `k` stands, the
    /// tile to its right or the tile below it.
    pub proof fn lemma_not_opened_before(&self, k: int, dx: int, dy: int)
        requires
            self.wf(),
            0 <= k < self.cells@.len(),
            (dx == 0 && dy == 0) || (dx == 1 && dy == 0) || (dx == 0 && dy == 1),
        ensures
            !opened(self.cells@, k, 2 * (self.cells@[k].column + 1) + dx, 2 * (self.cells@[k].row + 1) + dy),
    {
        let w = self.width as int;
        let h = self.height as int;
        self.lemma_nonempty();
        lemma_index_to_cell(w, h, k);
        let tx = 2 * (self.cells@[k].column + 1) + dx;
        let ty = 2 * (self.cells@[k].row + 1) + dy;
        assert forall|j: int| 0 <= j < k implies !opens(#[trigger] self.cells@[j], tx, ty) by {
            lemma_index_to_cell(w, h, j);
            assert(j == (j / w) * w + j % w && k == (k / w) * w + k % w);
            assert((k / w + 1) * w == (k / w) * w + w) by (nonlinear_arith);
            if j / w == k / w + 1 {
                assert((j / w) * w == (k / w) * w + w);
            }
        }
    }

    /// Where the wall above or left of cell `k` is down in a maze whose
    /// walls are down in pairs, a cell before `k` opens the tile there.
    pub proof fn lemma_opened_before(&self, k: int, side: int)
        requires
            self.wf(),
            self.paired(),
            0 <= k < self.cells@.len(),
            side == 0 || side == 3,
            !self.cells@[k].walls@[side],
        ensures
            side == 0 ==> opened(self.cells@, k, 2 * (self.cells@[k].column + 1), 2 * (self.cells@[k].row + 1) - 1),
            side == 3 ==> opened(self.cells@, k, 2 * (self.cells@[k].column + 1) - 1, 2 * (self.cells@[k].row + 1)),
    {
        let w = self.width as int;
        let h = self.height as int;
        self.lemma_nonempty();
        lemma_index_to_cell(w, h, k);
        assert(self.wall_paired(k, side));
        let b = self.beyond(k, side);
        assert(self.passage_on(k, side, b));
        lemma_index_to_cell(w, h, b);
        assert(k == (k / w) * w + k % w);
        assert((k / w - 1) * w == (k / w) * w - w) by (nonlinear_arith);
        assert(b < k);
        if side == 0 {
            lemma_cell_index_bounds(w, h, k % w, k / w - 1);
            assert(opens(self.cells@[b], 2 * (self.cells@[k].column + 1), 2 * (self.cells@[k].row + 1) - 1));
        } else {
            lemma_cell_index_bounds(w, h, k % w - 1, k / w);
            assert(opens(self.cells@[b], 2 * (self.cells@[k].column + 1) - 1, 2 * (self.cells@[k].row + 1)));
        }
    }

    /// On a map that shows the first `k` cells of a maze whose walls are
    /// down in pairs, the tiles that cell `k` adds are the one where it
    /// stands and one for each passage to the right or downwards.
    pub proof fn lemma_fresh_tiles(&self, map: &TileMap, k: int)
        requires
            self.wf(),
            self.paired(),
            0 <= k < self.cells@.len(),
            map.wf(),
            2 * self.width + 2 <= map.width,
            2 * self.height + 2 <= map.height,
            forall|i: int|
                0 <= i < map.tiles@.len() ==> #[trigger] map.tiles@[i] == (if opened(
                    self.cells@,
                    k,
                    map.x_of(i),
                    map.y_of(i),
                ) {
                    TileType::Floor
                } else {
                    TileType::Wall
                }),
        ensures
            fresh_tiles(map, self.cells@[k]) == 1 + ways_down(self.cells@[k]),
    {
        let cell = self.cells@[k];
        let x = 2 * (cell.column + 1);
        let y = 2 * (cell.row + 1);
        self.lemma_nonempty();
        lemma_index_to_cell(self.width as int, self.height as int, k);
        map.lemma_idx_bounds(x, y);
        map.lemma_idx_bounds(x, y - 1);
        map.lemma_idx_bounds(x + 1, y);
        map.lemma_idx_bounds(x, y + 1);
        map.lemma_idx_bounds(x - 1, y);
        self.lemma_not_opened_before(k, 0, 0);
        self.lemma_not_opened_before(k, 1, 0);
        self.lemma_not_opened_before(k, 0, 1);
        assert(map.tiles@[map.idx(x, y)] == TileType::Wall);
        assert(map.tiles@[map.idx(x + 1, y)] == TileType::Wall);
        assert(map.tiles@[map.idx(x, y + 1)] == TileType::Wall);
        if !cell.walls@[0] {
            self.lemma_opened_before(k, 0);
            assert(map.tiles@[map.idx(x, y - 1)] == TileType::Floor);
        }
        if !cell.walls@[3] {
            self.lemma_opened_before(k, 3);
            assert(map.tiles@[map.idx(x - 1, y)] == TileType::Floor);
        }
    }

    /// The index of the tile where cell `c` stands, on a map of the given
    /// width.
    pub open spec fn cell_tile(&self, map_width: int, c: int) -> int {
        (2 * (c / (self.width as int) + 1)) * map_width + 2 * (c % (self.width as int) + 1)
    }

    /// On the map of a maze, the way from the first cell to cell `c` is
    /// a route of steps along rows and columns.
    pub proof fn lemma_trail_on_map(&self, map: &TileMap, p: Seq<int>, c: int)
        requires
            self.wf(),
            self.cells@.len() > 0,
            map.wf(),
            2 * self.width + 2 <= map.width,
            2 * self.height + 2 <= map.height,
            forall|i: int|
                0 <= i < map.tiles@.len() ==> #[trigger] map.tiles@[i] == (if opened(
                    self.cells@,
                    self.cells@.len() as int,
                    map.x_of(i),
                    map.y_of(i),
                ) {
                    TileType::Floor
                } else {
                    TileType::Wall
                }),
            self.is_trail(p, c),
            0 <= c < self.cells@.len(),
        ensures
            terrain_of(map.tiles@, map.width as int, map.height as int).straight_linked(
                self.cell_tile(map.width as int, 0),
                self.cell_tile(map.width as int, c),
            ),
        decreases p.len(),
    {
        let w = self.width as int;
        let h = self.height as int;
        let mw = map.width as int;
        let t = terrain_of(map.tiles@, mw, map.height as int);
        self.lemma_nonempty();
        lemma_index_to_cell(w, h, 0);
        map.lemma_idx_bounds(2, 2);
        if p.len() == 1 {
            t.lemma_straight_here(self.cell_tile(mw, 0));
        } else {
            let q = p.drop_last();
            let a = q.last();
            assert(self.passage(p[p.len() - 2], p[p.len() - 2 + 1]));
            let side = choose|side: int| #[trigger] self.passage_on(a, side, c);
            assert forall|k: int| 0 <= k < q.len() - 1 implies self.passage(#[trigger] q[k], q[k + 1]) by {
                assert(self.passage(p[k], p[k + 1]));
            }
            assert(self.is_trail(q, a));
            self.lemma_trail_on_map(map, q, a);
            lemma_index_to_cell(w, h, a);
            lemma_index_to_cell(w, h, c);
            let xa = 2 * (a % w + 1);
            let ya = 2 * (a / w + 1);
            let (dx, dy): (int, int) = if side == 0 {
                (0, -1)
            } else if side == 1 {
                (1, 0)
            } else if side == 2 {
                (0, 1)
            } else {
                (-1, 0)
            };
            assert(c == (c / w) * w + c % w && a == (a / w) * w + a % w);
            assert((a / w + 1) * w == (a / w) * w + w) by (nonlinear_arith);
            assert((a / w - 1) * w == (a / w) * w - w) by (nonlinear_arith);
            assert(c % w == a % w + dx && c / w == a / w + dy) by {
                if side == 0 {
                    lemma_cell_index_bounds(w, h, a % w, a / w - 1);
                } else if side == 1 {
                    lemma_cell_index_bounds(w, h, a % w + 1, a / w);
                } else if side == 2 {
                    lemma_cell_index_bounds(w, h, a % w, a / w + 1);
                } else {
                    lemma_cell_index_bounds(w, h, a % w - 1, a / w);
                }
            }
            map.lemma_idx_bounds(xa, ya);
            map.lemma_idx_bounds(xa + dx, ya + dy);
            map.lemma_idx_bounds(xa + 2 * dx, ya + 2 * dy);
            let from = map.idx(xa, ya);
            let mid = map.idx(xa + dx, ya + dy);
            let to = map.idx(xa + 2 * dx, ya + 2 * dy);
            assert(from == self.cell_tile(mw, a));
            assert(to == self.cell_tile(mw, c));
            assert(opens(self.cells@[a], xa + dx, ya + dy));
            assert(opens(self.cells@[c], xa + 2 * dx, ya + 2 * dy));
            assert(map.tiles@[mid] == TileType::Floor);
            assert(map.tiles@[to] == TileType::Floor);
            assert(t.step(from, mid));
            assert(t.step(mid, to));
            t.lemma_straight_on(self.cell_tile(mw, 0), from, mid);
            t.lemma_straight_on(self.cell_tile(mw, 0), mid, to);
        }
    }

    /// On the map of a finished maze, a route of steps along rows and
    /// columns leads from the first cell to every floor tile.
    pub proof fn lemma_floor_on_map(&self, map: &TileMap, i: int)
        requires
            self.wf(),
            self.cells@.len() > 0,
            map.wf(),
            2 * self.width + 2 <= map.width,
            2 * self.height + 2 <= map.height,
            forall|i: int|
                0 <= i < map.tiles@.len() ==> #[trigger] map.tiles@[i] == (if opened(
                    self.cells@,
                    self.cells@.len() as int,
                    map.x_of(i),
                    map.y_of(i),
                ) {
                    TileType::Floor
                } else {
                    TileType::Wall
                }),
            forall|c: int| 0 <= c < self.cells@.len() ==> #[trigger] self.joined(c),
            0 <= i < map.tiles@.len(),
            map.tiles@[i] == TileType::Floor,
        ensures
            terrain_of(map.tiles@, map.width as int, map.height as int).straight_linked(
                self.cell_tile(map.width as int, 0),
                i,
            ),
    {
        let w = self.width as int;
        let h = self.height as int;
        let mw = map.width as int;
        let t = terrain_of(map.tiles@, mw, map.height as int);
        let n = self.cells@.len() as int;
        let tx = map.x_of(i);
        let ty = map.y_of(i);
        map.lemma_cell_of_index(i);
        assert(opened(self.cells@, n, tx, ty));
        let j = choose|j: int| 0 <= j < n && opens(#[trigger] self.cells@[j], tx, ty);
        assert(self.joined(j));
        let p = choose|p: Seq<int>| #[trigger] self.is_trail(p, j);
        self.lemma_trail_on_map(map, p, j);
        self.lemma_nonempty();
        lemma_index_to_cell(w, h, j);
        let xj = 2 * (j % w + 1);
        let yj = 2 * (j / w + 1);
        map.lemma_idx_bounds(xj, yj);
        assert(map.idx(xj, yj) == self.cell_tile(mw, j));
        if tx == xj && ty == yj {
        } else {
            assert(t.step(self.cell_tile(mw, j), i));
            t.lemma_straight_on(self.cell_tile(mw, 0), self.cell_tile(mw, j), i);
        }
    }

    /// What holds of the walk between two of its steps: it stands at a
    /// cell, which is the first or a visited one; the cells it remembers
    /// are visited; the walls are as carving leaves them; every visited
    /// cell is where the walk stands, or remembered, or has nowhere left
    /// to go; and for every visited cell but the first one passage has
    /// been opened.
    pub open spec fn walking(&self) -> bool {
        let n = self.cells@.len() as int;
        &&& self.wf()
        &&& n > 0
        &&& self.current < n
        &&& sides_open(self.cells@, n) + 2 * unvisited(self.cells@, n) + (if self.cells@[0].visited {
            2int
        } else {
            0int
        }) == 2 * n
        &&& sides_open(self.cells@, n) == 2 * ways_open(self.cells@, n)
        &&& self.carved()
        &&& self.current == 0 || self.cells@[self.current as int].visited
        &&& self.current != 0 ==> self.cells@[0].visited
        &&& forall|k: int| 0 <= k < self.backtrace@.len() ==> self.cells@[#[trigger] self.backtrace@[k] as int].visited
        &&& self.settled()
    }

    /// Marks the cell where the walk stands as visited.
    pub fn arrive(&mut self)
        requires
            old(self).walking(),
        ensures
            final(self).walking(),
            final(self).width == old(self).width,
            final(self).height == old(self).height,
            final(self).cells@.len() == old(self).cells@.len(),
            final(self).current == old(self).current,
            final(self).backtrace@ == old(self).backtrace@,
            final(self).cells@ == old(self).cells@.update(
                old(self).current as int,
                (Cell { visited: true, ..old(self).cells@[old(self).current as int] }),
            ),
            final(self).cells@[final(self).current as int].visited,
            final(self).cells@[0].visited,
            0 <= unvisited(final(self).cells@, final(self).cells@.len() as int) <= unvisited(
                old(self).cells@,
                old(self).cells@.len() as int,
            ),
    {
        let ghost n = self.cells@.len() as int;
        let ghost was = *self;
        let mut here: Cell = self.cells[self.current];
        here.visited = true;
        self.cells[self.current] = here;
        proof {
            let a = self.current as int;
            assert forall|c: int|
                0 <= c < self.cells@.len() && (#[trigger] self.cells@[c]).visited implies c == self.current
                || self.backtrace@.contains(c as usize) || self.stuck_at(c) by {
                if c != self.current {
                    assert(was.cells@[c].visited);
                    if was.stuck_at(c) {
                        was.lemma_stuck_stays(self, c);
                    }
                }
            }
            lemma_unvisited_update(was.cells@, a, here, n);
            lemma_sides_open_update(was.cells@, a, here, n);
            lemma_ways_open_update(was.cells@, a, here, n);
            assert(walls_down(here) == walls_down(was.cells@[a]));
            assert(ways_down(here) == ways_down(was.cells@[a]));
            lemma_unvisited_nonnegative(self.cells@, n);
            assert forall|c: int, side: int|
                0 <= c < was.cells@.len() && 0 <= side < 4 implies #[trigger] self.cells@[c].walls@[side]
                == was.cells@[c].walls@[side] by {
                if c != a {
                    assert(self.cells@[c] == was.cells@[c]);
                }
            }
            was.lemma_walls_fell(self, 0, 0, false);
            if !was.cells@[a].visited {
                assert(was.is_trail(seq![0int], 0));
            }
            assert(was.joined(a));
            assert forall|c: int| 0 <= c < self.cells@.len() && !(#[trigger] self.cells@[c]).visited implies self.walled(
                c,
            ) by {
                assert(self.cells@[c] == was.cells@[c]);
                assert(was.walled(c));
            }
            assert forall|c: int| 0 <= c < self.cells@.len() && (#[trigger] self.cells@[c]).visited implies self.joined(
                c,
            ) by {
                if c != a {
                    assert(self.cells@[c] == was.cells@[c]);
                    assert(was.joined(c));
                }
            }
            assert forall|k: int| 0 <= k < self.backtrace@.len() implies self.cells@[#[trigger] self.backtrace@[k] as int].visited by {
                assert(was.cells@[was.backtrace@[k] as int].visited);
            }
        }
    }

    /// The walk goes on to the unvisited cell `next` beside the one where
    /// it stands: it remembers where it stood and takes down the wall
    /// between the two.
    pub fn advance(&mut self, next: usize)
        requires
            old(self).walking(),
            old(self).cells@[old(self).current as int].visited,
            next < old(self).cells@.len(),
            next != old(self).current,
            !old(self).cells@[next as int].visited,
            ({
                let a = old(self).cells@[old(self).current as int];
                let b = old(self).cells@[next as int];
                (a.row == b.row && (a.column - b.column == 1 || a.column - b.column == -1)) || (a.column == b.column
                    && (a.row - b.row == 1 || a.row - b.row == -1))
            }),
        ensures
            final(self).walking(),
            final(self).width == old(self).width,
            final(self).height == old(self).height,
            final(self).cells@.len() == old(self).cells@.len(),
            final(self).current == next,
            final(self).backtrace@ == old(self).backtrace@.push(old(self).current),
            final(self).cells@[0].visited,
            unvisited(final(self).cells@, final(self).cells@.len() as int) == unvisited(
                old(self).cells@,
                old(self).cells@.len() as int,
            ) - 1,
            unvisited(final(self).cells@, final(self).cells@.len() as int) >= 0,
            final(self).passage(old(self).current as int, next as int),
    {
        let ghost n = self.cells@.len() as int;
        let ghost was = *self;
        proof {
            let a = was.current as int;
            let b = next as int;
            let w = self.width as int;
            self.lemma_nonempty();
            lemma_index_to_cell(w, self.height as int, a);
            lemma_index_to_cell(w, self.height as int, b);
            assert(a / w == was.cells@[a].row && a % w == was.cells@[a].column);
            assert(b / w == was.cells@[b].row && b % w == was.cells@[b].column);
            assert(was.walled(b));
            was.lemma_wall_between_stands(a, b);
        }
        self.open_way(next);
        self.backtrace.push(self.current);
        let ghost opened_up = *self;
        self.current = next;
        proof {
            let a = was.current as int;
            let b = next as int;
            lemma_unvisited_nonnegative(self.cells@, n);
            was.lemma_walls_fell(&opened_up, a, b, true);
            assert(was.joined(a));
            assert forall|c: int|
                0 <= c < opened_up.cells@.len() && !(#[trigger] opened_up.cells@[c]).visited implies opened_up.walled(
                c,
            ) by {
                assert(opened_up.cells@[c] == was.cells@[c]);
                assert(was.walled(c));
            }
            assert forall|c: int|
                0 <= c < opened_up.cells@.len() && (#[trigger] opened_up.cells@[c]).visited implies opened_up.joined(
                c,
            ) by {
                if c != a && c != b {
                    assert(opened_up.cells@[c] == was.cells@[c]);
                    assert(was.joined(c));
                }
            }
            assert(opened_up.carved());
            opened_up.lemma_carved_stays(self);
            was.lemma_passage_stays(&opened_up, self, a, b);
            assert forall|k: int| 0 <= k < self.backtrace@.len() implies self.cells@[#[trigger] self.backtrace@[k] as int].visited by {
                if k < was.backtrace@.len() {
                    assert(self.backtrace@[k] == was.backtrace@[k]);
                    assert(was.cells@[was.backtrace@[k] as int].visited);
                    if was.backtrace@[k] as int != a && was.backtrace@[k] as int != b {
                        assert(self.cells@[was.backtrace@[k] as int] == was.cells@[was.backtrace@[k] as int]);
                    }
                }
            }
            assert forall|c: int|
                0 <= c < self.cells@.len() && (#[trigger] self.cells@[c]).visited implies c == self.current
                || self.backtrace@.contains(c as usize) || self.stuck_at(c) by {
                let last = self.backtrace@.len() - 1;
                if c == b {
                } else if c == a {
                    assert(self.backtrace@[last] == c as usize);
                } else {
                    assert(self.cells@[c] == was.cells@[c]);
                    assert(was.cells@[c].visited);
                    if was.backtrace@.contains(c as usize) {
                        let k = choose|k: int| 0 <= k < was.backtrace@.len() && was.backtrace@[k] == c as usize;
                        assert(self.backtrace@[k] == c as usize);
                    } else {
                        assert(was.stuck_at(c));
                        was.lemma_stuck_stays(self, c);
                    }
                }
            }
            if a != 0 && b != 0 {
                assert(self.cells@[0] == was.cells@[0]);
            }
        }
    }

    /// The walk, with nowhere to go from where it stands, goes back to
    /// the cell it has remembered longest; where it remembers none it is
    /// done.
    pub fn retreat(&mut self) -> (done: bool)
        requires
            old(self).walking(),
            old(self).cells@[old(self).current as int].visited,
            old(self).cells@[0].visited,
            old(self).neighbours().len() == 0,
        ensures
            final(self).walking(),
            final(self).width == old(self).width,
            final(self).height == old(self).height,
            final(self).cells@ == old(self).cells@,
            final(self).cells@[0].visited,
            done ==> final(self).backtrace@.len() == 0 && final(self).stuck_at(final(self).current as int),
            !done ==> final(self).backtrace@.len() == old(self).backtrace@.len() - 1,
    {
        let ghost stood = *self;
        proof {
            stood.lemma_nowhere_to_go();
        }
        if self.backtrace.len() == 0 {
            true
        } else {
            self.current = self.backtrace[0];
            self.backtrace.remove(0);
            proof {
                stood.lemma_retreated(self);
            }
            false
        }
    }

    /// A walk without a cell to go on to is stuck where it stands.
    pub proof fn lemma_nowhere_to_go(&self)
        requires
            self.wf(),
            self.current < self.cells@.len(),
            self.neighbours().len() == 0,
        ensures
            self.stuck_at(self.current as int),
    {
        self.lemma_nonempty();
        lemma_index_to_cell(self.width as int, self.height as int, self.current as int);
    }

    /// Going back to the cell remembered longest leaves every visited
    /// cell where the walk stands, or remembered, or with nowhere left to
    /// go.
    pub proof fn lemma_settled_back(&self, now: &Grid)
        requires
            self.wf(),
            now.wf(),
            self.settled(),
            self.current < self.cells@.len(),
            self.stuck_at(self.current as int),
            self.backtrace@.len() > 0,
            now.width == self.width,
            now.height == self.height,
            now.cells@ == self.cells@,
            now.current == self.backtrace@[0],
            now.backtrace@ == self.backtrace@.remove(0),
        ensures
            now.settled(),
    {
        assert(self.cells@.len() <= i32::MAX);
        assert forall|c: int|
            0 <= c < now.cells@.len() && (#[trigger] now.cells@[c]).visited implies c == now.current
            || now.backtrace@.contains(c as usize) || now.stuck_at(c) by {
            assert(self.cells@[c].visited);
            if c == self.current {
                self.lemma_stuck_stays(now, c);
            } else if self.backtrace@.contains(c as usize) {
                let k = choose|k: int| 0 <= k < self.backtrace@.len() && self.backtrace@[k] == c as usize;
                if k > 0 {
                    assert(now.backtrace@[k - 1] == c as usize);
                    assert(now.backtrace@.contains(c as usize));
                } else {
                    assert(c == now.current);
                }
            } else {
                assert(self.stuck_at(c));
                self.lemma_stuck_stays(now, c);
            }
        }
    }

    /// Going back to the cell remembered longest leaves the walk in
    /// order.
    pub proof fn lemma_retreated(&self, now: &Grid)
        requires
            self.walking(),
            self.cells@[self.current as int].visited,
            self.cells@[0].visited,
            self.stuck_at(self.current as int),
            self.backtrace@.len() > 0,
            now.width == self.width,
            now.height == self.height,
            now.cells@ == self.cells@,
            now.current == self.backtrace@[0],
            now.backtrace@ == self.backtrace@.remove(0),
        ensures
            now.walking(),
    {
        assert(self.backtrace@[0] < self.cells@.len());
        assert forall|k: int| 0 <= k < now.backtrace@.len() implies #[trigger] now.backtrace@[k] < now.cells@.len() by {
            assert(now.backtrace@[k] == self.backtrace@[k + 1]);
        }
        assert(now.wf());
        self.lemma_carved_stays(now);
        self.lemma_settled_back(now);
        assert(self.cells@[self.backtrace@[0] as int].visited);
        assert forall|k: int| 0 <= k < now.backtrace@.len() implies now.cells@[#[trigger] now.backtrace@[k] as int].visited by {
            assert(now.backtrace@[k] == self.backtrace@[k + 1]);
        }
    }

    /// Carves the maze: the walk goes from cell to unvisited cell, taking
    /// down the wall between them, and where it is stuck goes back to the
    /// cell it remembers longest. Then the maze is drawn onto the map. The
    /// maze is perfect: passages join all cells, and there is one passage
    /// less than there are cells.
    pub fn generate_maze(&mut self, rng: &mut RandomNumberGenerator, map: &mut TileMap)
        requires
            old(self).wf(),
            old(self).cells@.len() > 0,
            old(self).current == 0,
            forall|i: int| 0 <= i < old(self).cells@.len() ==> !(#[trigger] old(self).cells@[i]).visited,
            forall|i: int| 0 <= i < old(self).cells@.len() ==> old(self).walled(i),
            old(self).backtrace@.len() == 0,
            old(map).wf(),
            2 * old(self).width + 2 <= old(map).width,
            2 * old(self).height + 2 <= old(map).height,
        ensures
            final(self).wf(),
            final(self).width == old(self).width,
            final(self).height == old(self).height,
            final(self).cells@.len() == old(self).cells@.len(),
            final(self).all_visited(),
            final(self).paired(),
            forall|c: int| 0 <= c < final(self).cells@.len() ==> #[trigger] final(self).joined(c),
            sides_open(final(self).cells@, final(self).cells@.len() as int) == 2 * (final(self).cells@.len() - 1),
            ways_open(final(self).cells@, final(self).cells@.len() as int) == final(self).cells@.len() - 1,
            count_tiles(final(map).tiles@, TileType::Floor, final(map).tiles@.len() as int) == 2
                * final(self).cells@.len() - 1,
            forall|i: int|
                0 <= i < final(map).tiles@.len() && #[trigger] final(map).tiles@[i] == TileType::Floor ==> terrain_of(
                    final(map).tiles@,
                    final(map).width as int,
                    final(map).height as int,
                ).straight_linked(final(self).cell_tile(final(map).width as int, 0), i),
            final(map).same_frame(old(map)),
            forall|i: int|
                0 <= i < final(map).tiles@.len() ==> #[trigger] final(map).tiles@[i] == (if opened(
                    final(self).cells@,
                    final(self).cells@.len() as int,
                    final(map).x_of(i),
                    final(map).y_of(i),
                ) {
                    TileType::Floor
                } else {
                    TileType::Wall
                }),
    {
        let ghost n = self.cells@.len() as int;
        let mut done: bool = false;
        proof {
            assert forall|c: int, side: int|
                0 <= c < self.cells@.len() && 0 <= side < 4 implies #[trigger] self.wall_paired(c, side) by {
                assert(self.walled(c));
            }
            assert forall|i: int, side: int|
                0 <= i < self.cells@.len() && 0 <= side < 4 implies #[trigger] self.cells@[i].walls@[side] by {
                assert(self.walled(i));
            }
            lemma_all_walled(self.cells@, n);
            lemma_none_visited(self.cells@, n);
        }
        while !done
            invariant
                self.walking(),
                self.width == old(self).width,
                self.height == old(self).height,
                self.cells@.len() == n,
                done ==> self.cells@[0].visited && self.backtrace@.len() == 0 && self.stuck_at(self.current as int),
            decreases 2 * unvisited(self.cells@, n) + self.backtrace@.len() + (if done { 0int } else { 1int }),
        {
            self.arrive();
            let next: Option<usize> = self.find_next_cell(rng);
            match next {
                Some(next) => {
                    self.advance(next);
                },
                None => {
                    done = self.retreat();
                    proof {
                        lemma_unvisited_nonnegative(self.cells@, n);
                    }
                },
            }
        }
        proof {
            assert forall|v: int| 0 <= v < self.cells@.len() && (#[trigger] self.cells@[v]).visited implies self.stuck_at(
                v,
            ) by {
                assert(!self.backtrace@.contains(v as usize));
            }
            assert forall|c: int| 0 <= c < self.cells@.len() implies (#[trigger] self.cells@[c]).visited by {
                self.lemma_all_visited(c);
            }
            assert forall|c: int| 0 <= c < self.cells@.len() implies #[trigger] self.joined(c) by {
                assert(self.cells@[c].visited);
            }
            lemma_all_visited_count(self.cells@, n);
        }
        self.copy_to_map(map);
        proof {
            assert forall|i: int| 0 <= i < map.tiles@.len() && #[trigger] map.tiles@[i] == TileType::Floor implies terrain_of(
                map.tiles@,
                map.width as int,
                map.height as int,
            ).straight_linked(self.cell_tile(map.width as int, 0), i) by {
                self.lemma_floor_on_map(map, i);
            }
        }
    }

    /// Draws the maze onto the map: a tile is floor where some cell opens
    /// it, and a wall everywhere else. Where the walls are down in pairs
    /// there is one floor tile for every cell and one for every passage.
    pub fn copy_to_map(&self, map: &mut TileMap)
        requires
            self.wf(),
            old(map).wf(),
            2 * self.width + 2 <= old(map).width,
            2 * self.height + 2 <= old(map).height,
        ensures
            final(map).same_frame(old(map)),
            forall|i: int|
                0 <= i < final(map).tiles@.len() ==> #[trigger] final(map).tiles@[i] == (if opened(
                    self.cells@,
                    self.cells@.len() as int,
                    final(map).x_of(i),
                    final(map).y_of(i),
                ) {
                    TileType::Floor
                } else {
                    TileType::Wall
                }),
            self.paired() ==> count_tiles(final(map).tiles@, TileType::Floor, final(map).tiles@.len() as int)
                == self.cells@.len() + ways_open(self.cells@, self.cells@.len() as int),
    {
        let mut t: usize = 0;
        while t < map.tiles.len()
            invariant
                map.same_frame(old(map)),
                t <= map.tiles@.len(),
                forall|i: int| 0 <= i < t ==> #[trigger] map.tiles@[i] == TileType::Wall,
            decreases map.tiles@.len() - t,
        {
            map.tiles[t] = TileType::Wall;
            t += 1;
        }
        proof {
            lemma_count_tiles_none(map.tiles@, TileType::Floor, map.tiles@.len() as int);
        }
        let mut k: usize = 0;
        while k < self.cells.len()
            invariant
                self.wf(),
                map.same_frame(old(map)),
                2 * self.width + 2 <= map.width,
                2 * self.height + 2 <= map.height,
                k <= self.cells@.len(),
                forall|i: int|
                    0 <= i < map.tiles@.len() ==> #[trigger] map.tiles@[i] == (if opened(
                        self.cells@,
                        k as int,
                        map.x_of(i),
                        map.y_of(i),
                    ) {
                        TileType::Floor
                    } else {
                        TileType::Wall
                    }),
                self.paired() ==> count_tiles(map.tiles@, TileType::Floor, map.tiles@.len() as int) == k + ways_open(
                    self.cells@,
                    k as int,
                ),
            decreases self.cells@.len() - k,
        {
            let cell: Cell = self.cells[k];
            proof {
                self.lemma_nonempty();
                lemma_index_to_cell(self.width as int, self.height as int, k as int);
                if self.paired() {
                    self.lemma_fresh_tiles(map, k as int);
                }
            }
            let ghost before = *map;
            draw_cell(map, cell);
            proof {
                assert forall|i: int| 0 <= i < map.tiles@.len() implies #[trigger] map.tiles@[i] == (if opened(
                    self.cells@,
                    k + 1,
                    map.x_of(i),
                    map.y_of(i),
                ) {
                    TileType::Floor
                } else {
                    TileType::Wall
                }) by {
                    let tx = map.x_of(i);
                    let ty = map.y_of(i);
                    assert(before.x_of(i) == tx && before.y_of(i) == ty);
                    if opens(cell, tx, ty) {
                        assert(opens(self.cells@[k as int], tx, ty));
                    } else {
                        assert(map.tiles@[i] == before.tiles@[i]);
                        if opened(self.cells@, k as int, tx, ty) {
                            let j = choose|j: int| 0 <= j < k && opens(#[trigger] self.cells@[j], tx, ty);
                            assert(opens(self.cells@[j], tx, ty));
                        }
                        if opened(self.cells@, k + 1, tx, ty) {
                            let j = choose|j: int| 0 <= j < k + 1 && opens(#[trigger] self.cells@[j], tx, ty);
                            assert(j < k);
                        }
                    }
                }
            }
            k += 1;
        }
    }
}

/// `drawn` shows a finished maze of 38 by 19 cells: every cell is
/// visited, walls are down only between neighbouring cells and then on
/// both sides, passages lead from the first cell to every other, there is
/// one passage less than there are cells, a tile is floor where some
/// cell opens it and a wall everywhere else, and so there is one floor
/// tile for every cell and one for every passage, and a route of steps
/// along rows and columns leads from the first cell to every floor tile.
pub open spec fn maze_drawn(grid: &Grid, drawn: Seq<TileType>) -> bool {
    &&& grid.wf()
    &&& grid.width == MAP_WIDTH / 2 - 2
    &&& grid.height == MAP_HEIGHT / 2 - 2
    &&& grid.all_visited()
    &&& grid.paired()
    &&& forall|c: int| 0 <= c < grid.cells@.len() ==> #[trigger] grid.joined(c)
    &&& sides_open(grid.cells@, grid.cells@.len() as int) == 2 * (grid.cells@.len() - 1)
    &&& count_tiles(drawn, TileType::Floor, drawn.len() as int) == 2 * grid.cells@.len() - 1
    &&& forall|i: int|
        0 <= i < drawn.len() && #[trigger] drawn[i] == TileType::Floor ==> terrain_of(
            drawn,
            MAP_WIDTH as int,
            MAP_HEIGHT as int,
        ).straight_linked(grid.cell_tile(MAP_WIDTH as int, 0), i)
    &&& drawn.len() == MAP_WIDTH * MAP_HEIGHT
    &&& forall|i: int|
        0 <= i < drawn.len() ==> #[trigger] drawn[i] == (if opened(
            grid.cells@,
            grid.cells@.len() as int,
            i % (MAP_WIDTH as int),
            i / (MAP_WIDTH as int),
        ) {
            TileType::Floor
        } else {
            TileType::Wall
        })
}

// Builder
// =========================================================================
/// Builds a maze.
pub struct MazeBuilder {
    pub map: TileMap,
    pub starting_position: Position,
    pub depth: i32,
    pub noise_areas: HashMap<i32, Vec<usize>>,
    pub noise_seed: u64,
}

impl MazeBuilder {
    /// The map has the standard size.
    pub open spec fn wf(&self) -> bool {
        &&& self.map.wf()
        &&& self.map.width == MAP_WIDTH
        &&& self.map.height == MAP_HEIGHT
    }

    /// The index of the starting position.
    pub open spec fn start_index(&self) -> int {
        self.map.idx(self.starting_position.x as int, self.starting_position.y as int)
    }

    #[allow(dead_code)]
    pub fn new(depth: i32) -> (builder: MazeBuilder)
        ensures
            builder.wf(),
            builder.depth == depth,
            builder.map.depth == depth,
            builder.starting_position == (Position { x: 0, y: 0 }),
            builder.noise_areas@.len() == 0,
            forall|i: int| 0 <= i < builder.map.tiles@.len() ==> #[trigger] builder.map.tiles@[i] == TileType::Void,
    {
        MazeBuilder {
            map: TileMap::new(MAP_WIDTH as i32, MAP_HEIGHT as i32, depth, None),
            starting_position: Position { x: 0, y: 0 },
            depth,
            noise_areas: HashMap::new(),
            noise_seed: 0,
        }
    }

    /// An independent copy of the map.
    pub fn get_map(&self) -> (map: TileMap)
        ensures
            map.same_shape(&self.map),
            map.tiles@ == self.map.tiles@,
            map.revealed_tiles@ == self.map.revealed_tiles@,
            map.visible_tiles@ == self.map.visible_tiles@,
            map.blocked@ == self.map.blocked@,
    {
        self.map.duplicate()
    }

    pub fn get_starting_position(&self) -> (position: Position)
        ensures
            position == self.starting_position,
    {
        self.starting_position
    }

    /// Carves a maze of cells two tiles apart, starts in its first cell,
    /// prunes what lies too far to be reached, and puts the stairs on the
    /// farthest floor tile that can be. This cannot fail: the first cell
    /// always has a passage to another.
    pub fn build(&mut self, rng: &mut RandomNumberGenerator) -> (r: Result<(), BuildError>)
        requires
            old(self).wf(),
        ensures
            final(self).wf(),
            final(self).map.same_shape(&old(self).map),
            final(self).depth == old(self).depth,
            final(self).starting_position == (Position { x: 2, y: 2 }),
            r is Ok,
            exists|e: int| playable(&final(self).map, final(self).start_index(), e),
            1 <= final(self).noise_seed <= 65536,
            exists|grid: Grid, drawn: Seq<TileType>| #[trigger]
                maze_drawn(&grid, drawn) && exit_placed(
                    drawn,
                    MAP_WIDTH as int,
                    MAP_HEIGHT as int,
                    final(self).start_index(),
                    final(self).map.tiles@,
                    true,
                ),
    {
        let mut grid: Grid = Grid::new((self.map.width / 2) - 2, (self.map.height / 2) - 2);
        proof {
            assert(grid.cells@.len() == 38 * 19);
        }
        grid.generate_maze(rng, &mut self.map);
        self.starting_position = Position { x: 2, y: 2 };
        let start_idx: usize = self.map.xy_idx(self.starting_position.x, self.starting_position.y);
        proof {
            assert(opens(grid.cells@[0], 2, 2));
            assert(opened(grid.cells@, grid.cells@.len() as int, self.map.x_of(start_idx as int), self.map.y_of(start_idx as int)));
            assert(grid.joined(1));
            grid.lemma_first_cell_opens();
            let beside = if !grid.cells@[0].walls@[1] {
                self.map.idx(3, 2)
            } else {
                self.map.idx(2, 3)
            };
            self.map.lemma_idx_bounds(3, 2);
            self.map.lemma_idx_bounds(2, 3);
            self.map.lemma_idx_bounds(2, 2);
            assert(opens(grid.cells@[0], self.map.x_of(beside), self.map.y_of(beside)));
            assert(self.map.tiles@[beside] == TileType::Floor);
            let t = terrain_of(self.map.tiles@, self.map.width as int, self.map.height as int);
            assert(t.is_route(seq![start_idx as int], start_idx as int, start_idx as int));
            assert(t.step(start_idx as int, beside));
            t.lemma_route_extend(seq![start_idx as int], start_idx as int, start_idx as int, beside);
            assert(t.route_cost(seq![start_idx as int]) == 0);
            assert(t.reaches(start_idx as int, beside, t.step_cost(start_idx as int, beside)));
            assert(t.connected(start_idx as int, beside, MAX_COST as int));
            assert(maze_drawn(&grid, self.map.tiles@));
        }
        let ghost drawn = self.map.tiles@;
        let exit_tile: Option<usize> = place_exit(&mut self.map, start_idx);
        proof {
            assert(exit_tile is Some);
            assert(exit_placed(
                drawn,
                MAP_WIDTH as int,
                MAP_HEIGHT as int,
                start_idx as int,
                self.map.tiles@,
                true,
            ));
        }
        self.noise_seed = roll_dice(rng, 1, 65536) as u64;
        match exit_tile {
            None => Err(BuildError::NoExit),
            Some(e) => {
                proof {
                    assert(playable(&self.map, start_idx as int, e as int));
                    assert(self.start_index() == start_idx);
                    assert(maze_drawn(&grid, drawn) && exit_placed(
                        drawn,
                        MAP_WIDTH as int,
                        MAP_HEIGHT as int,
                        self.start_index(),
                        self.map.tiles@,
                        true,
                    ));
                }
                Ok(())
            },
        }
    }

    /// Groups the floor tiles into spawn regions by the values of a noise
    /// field, one value per tile.
    pub fn assign_regions(&mut self, cell_values: &Vec<i32>)
        requires
            old(self).wf(),
            cell_values@.len() == old(self).map.tiles@.len(),
        ensures
            final(self).map == old(self).map,
            final(self).starting_position == old(self).starting_position,
            final(self).depth == old(self).depth,
            forall|id: i32| #[trigger]
                final(self).noise_areas@.contains_key(id) <==> region_members(
                    old(self).map.tiles@,
                    old(self).map.width as int,
                    old(self).map.height as int,
                    cell_values@,
                    id,
                    old(self).map.tiles@.len() as int,
                ).len() > 0,
            forall|id: i32| #[trigger]
                final(self).noise_areas@.contains_key(id) ==> final(self).noise_areas@[id]@ == region_members(
                    old(self).map.tiles@,
                    old(self).map.width as int,
                    old(self).map.height as int,
                    cell_values@,
                    id,
                    old(self).map.tiles@.len() as int,
                ),
    {
        self.noise_areas = generate_voronoi_spawn_regions(&self.map, cell_values);
    }
}

} // verus!
