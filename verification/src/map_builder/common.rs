use crate::map::{cell_index, tile_blocks, TileMap, TileType};
use crate::map_builder::distance::{
    DIAGONAL_COST, distance_field, is_field, lemma_field_meaning, MAX_COST, Terrain, terrain_of, UNREACHED,
};
use crate::rect::Rect;
use std::collections::HashMap;
use vstd::prelude::*;

verus! {

#[allow(dead_code)]
#[derive(PartialEq, Eq, Copy, Clone, Debug, Structural)]
pub enum Symmetry {
    Neither,
    Horizontal,
    Vertical,
    Both,
}

/// A copy of `map` on which every tile is revealed and visible.
pub fn snapshot(map: &TileMap) -> (snap: TileMap)
    ensures
        snap.same_shape(map),
        snap.tiles@ == map.tiles@,
        snap.blocked@ == map.blocked@,
        snap.revealed_tiles@.len() == map.revealed_tiles@.len(),
        snap.visible_tiles@.len() == map.visible_tiles@.len(),
        forall|i: int| 0 <= i < snap.revealed_tiles@.len() ==> #[trigger] snap.revealed_tiles@[i],
        forall|i: int| 0 <= i < snap.visible_tiles@.len() ==> #[trigger] snap.visible_tiles@[i],
{
    let mut snap: TileMap = map.duplicate();
    let mut i: usize = 0;
    while i < snap.revealed_tiles.len()
        invariant
            snap.same_shape(map),
            snap.tiles@ == map.tiles@,
            snap.blocked@ == map.blocked@,
            snap.revealed_tiles@.len() == map.revealed_tiles@.len(),
            snap.visible_tiles@ == map.visible_tiles@,
            forall|j: int| 0 <= j < i && j < snap.revealed_tiles@.len() ==> #[trigger] snap.revealed_tiles@[j],
        decreases snap.revealed_tiles@.len() - i,
    {
        snap.revealed_tiles[i] = true;
        i += 1;
    }
    let mut k: usize = 0;
    while k < snap.visible_tiles.len()
        invariant
            snap.same_shape(map),
            snap.tiles@ == map.tiles@,
            snap.blocked@ == map.blocked@,
            snap.revealed_tiles@.len() == map.revealed_tiles@.len(),
            snap.visible_tiles@.len() == map.visible_tiles@.len(),
            forall|j: int| 0 <= j < snap.revealed_tiles@.len() ==> #[trigger] snap.revealed_tiles@[j],
            forall|j: int| 0 <= j < k && j < snap.visible_tiles@.len() ==> #[trigger] snap.visible_tiles@[j],
        decreases snap.visible_tiles@.len() - k,
    {
        snap.visible_tiles[k] = true;
        k += 1;
    }
    snap
}

/// What a room leaves at `(cx, cy)`: a wall on the border of the block
/// from `(x1, y1)` to `(x2 + 1, y2 + 1)`, floor inside it, and `before`
/// everywhere else.
pub open spec fn room_tile(room: Rect, cx: int, cy: int, before: TileType) -> TileType {
    if room.x1 <= cx <= room.x2 + 1 && room.y1 <= cy <= room.y2 + 1 {
        if cx == room.x1 || cx == room.x2 + 1 || cy == room.y1 || cy == room.y2 + 1 {
            TileType::Wall
        } else {
            TileType::Floor
        }
    } else {
        before
    }
}

/// Draws a room: walls along the border of the block from the room's first corner to one cell beyond its
/// second, and floor inside.
pub fn apply_room_to_map(map: &mut TileMap, room: &Rect)
    requires
        old(map).wf(),
        0 <= room.x1,
        0 <= room.y1,
        room.x2 + 1 < old(map).width,
        room.y2 + 1 < old(map).height,
    ensures
        final(map).wf(),
        final(map).same_shape(old(map)),
        final(map).revealed_tiles@ == old(map).revealed_tiles@,
        final(map).visible_tiles@ == old(map).visible_tiles@,
        final(map).blocked@ == old(map).blocked@,
        forall|i: int|
            0 <= i < final(map).tiles@.len() ==> #[trigger] final(map).tiles@[i] == room_tile(
                *room,
                old(map).x_of(i),
                old(map).y_of(i),
                old(map).tiles@[i],
            ),
{
    let top: i32 = room.y1;
    let btm: i32 = room.y2 + 1;
    let lft: i32 = room.x1;
    let rgt: i32 = room.x2 + 1;
    let mut y: i32 = top;
    while y <= btm
        invariant
            map.wf(),
            old(map).wf(),
            map.same_shape(old(map)),
            map.revealed_tiles@ == old(map).revealed_tiles@,
            map.visible_tiles@ == old(map).visible_tiles@,
            map.blocked@ == old(map).blocked@,
            top == room.y1,
            btm == room.y2 + 1,
            lft == room.x1,
            rgt == room.x2 + 1,
            0 <= lft,
            0 <= top,
            rgt < map.width,
            btm < map.height,
            top <= y,
            y <= btm + 1 || btm < top,
            forall|i: int|
                0 <= i < map.tiles@.len() ==> #[trigger] map.tiles@[i] == (if old(map).y_of(i) < y {
                    room_tile(*room, old(map).x_of(i), old(map).y_of(i), old(map).tiles@[i])
                } else {
                    old(map).tiles@[i]
                }),
        decreases btm + 1 - y,
    {
        let mut x: i32 = lft;
        while x <= rgt
            invariant
                map.wf(),
                old(map).wf(),
                map.same_shape(old(map)),
                map.revealed_tiles@ == old(map).revealed_tiles@,
                map.visible_tiles@ == old(map).visible_tiles@,
                map.blocked@ == old(map).blocked@,
                top == room.y1,
                btm == room.y2 + 1,
                lft == room.x1,
                rgt == room.x2 + 1,
                0 <= lft,
                0 <= top,
                rgt < map.width,
                btm < map.height,
                top <= y <= btm,
                lft <= x,
                x <= rgt + 1 || rgt < lft,
                forall|i: int|
                    0 <= i < map.tiles@.len() ==> #[trigger] map.tiles@[i] == (if old(map).y_of(i) < y
                        || (old(map).y_of(i) == y && old(map).x_of(i) < x) {
                        room_tile(*room, old(map).x_of(i), old(map).y_of(i), old(map).tiles@[i])
                    } else {
                        old(map).tiles@[i]
                    }),
            decreases rgt + 1 - x,
        {
            if x == lft || x == rgt || y == top || y == btm {
                map.set_tile(x, y, TileType::Wall);
            } else {
                map.set_tile(x, y, TileType::Floor);
            }
            x += 1;
        }
        proof {
            assert forall|i: int| 0 <= i < map.tiles@.len() implies #[trigger] map.tiles@[i]
                == (if old(map).y_of(i) < y + 1 {
                room_tile(*room, old(map).x_of(i), old(map).y_of(i), old(map).tiles@[i])
            } else {
                old(map).tiles@[i]
            }) by {
                old(map).lemma_cell_of_index(i);
            }
        }
        y += 1;
    }
    proof {
        assert forall|i: int| 0 <= i < map.tiles@.len() implies #[trigger] map.tiles@[i] == room_tile(
            *room,
            old(map).x_of(i),
            old(map).y_of(i),
            old(map).tiles@[i],
        ) by {
            old(map).lemma_cell_of_index(i);
        }
    }
}

/// `v` lies between `a` and `b`, whichever of the two is smaller.
pub open spec fn between(a: int, b: int, v: int) -> bool {
    (a <= v <= b) || (b <= v <= a)
}

/// The corridor from `(x1, y1)` to `(x2, y2)` runs along row `y1` to column
/// `x2` and then along that column; it carves every cell on the way but
/// the first.
pub open spec fn on_corridor(x1: int, y1: int, x2: int, y2: int, cx: int, cy: int) -> bool {
    ||| cy == y1 && cx != x1 && between(x1, x2, cx)
    ||| cx == x2 && cy != y1 && between(y1, y2, cy)
}

/// `(cx, cy)` is a carved cell of the corridor or one of the eight cells
/// around one.
pub open spec fn beside_corridor(x1: int, y1: int, x2: int, y2: int, cx: int, cy: int) -> bool {
    ||| on_corridor(x1, y1, x2, y2, cx - 1, cy - 1)
    ||| on_corridor(x1, y1, x2, y2, cx, cy - 1)
    ||| on_corridor(x1, y1, x2, y2, cx + 1, cy - 1)
    ||| on_corridor(x1, y1, x2, y2, cx - 1, cy)
    ||| on_corridor(x1, y1, x2, y2, cx, cy)
    ||| on_corridor(x1, y1, x2, y2, cx + 1, cy)
    ||| on_corridor(x1, y1, x2, y2, cx - 1, cy + 1)
    ||| on_corridor(x1, y1, x2, y2, cx, cy + 1)
    ||| on_corridor(x1, y1, x2, y2, cx + 1, cy + 1)
}

/// What the corridor leaves at `(cx, cy)`: floor on the corridor, a wall
/// beside it unless there was floor already, and `before` elsewhere.
pub open spec fn corridor_tile(
    x1: int,
    y1: int,
    x2: int,
    y2: int,
    cx: int,
    cy: int,
    before: TileType,
) -> TileType {
    if on_corridor(x1, y1, x2, y2, cx, cy) {
        TileType::Floor
    } else if beside_corridor(x1, y1, x2, y2, cx, cy) && before != TileType::Floor {
        TileType::Wall
    } else {
        before
    }
}

/// The tiles of a map `width` wide after the first `n` of the corridors
/// `ends`, each given by its two end points, are drawn over `tiles` one
/// after the other.
pub open spec fn corridors_over(tiles: Seq<TileType>, width: int, ends: Seq<(int, int, int, int)>, n: int) -> Seq<
    TileType,
>
    decreases n,
{
    if n <= 0 {
        tiles
    } else {
        let under = corridors_over(tiles, width, ends, n - 1);
        let e = ends[n - 1];
        Seq::new(tiles.len(), |i: int| corridor_tile(e.0, e.1, e.2, e.3, i % width, i / width, under[i]))
    }
}

/// What the first corridors leave depends on those corridors alone.
pub proof fn lemma_corridors_prefix(
    tiles: Seq<TileType>,
    width: int,
    a: Seq<(int, int, int, int)>,
    b: Seq<(int, int, int, int)>,
    n: int,
)
    requires
        0 <= n <= a.len(),
        n <= b.len(),
        forall|k: int| 0 <= k < n ==> a[k] == b[k],
    ensures
        corridors_over(tiles, width, a, n) == corridors_over(tiles, width, b, n),
        corridors_over(tiles, width, a, n).len() == tiles.len(),
    decreases n,
{
    if n > 0 {
        lemma_corridors_prefix(tiles, width, a, b, n - 1);
        assert(corridors_over(tiles, width, a, n) =~= corridors_over(tiles, width, b, n));
    }
}

/// One more corridor drawn over a map on which corridors were drawn
/// leaves what all of them leave, drawn one after the other.
pub proof fn lemma_corridor_added(
    first: Seq<TileType>,
    before: &TileMap,
    after: &TileMap,
    ends: Seq<(int, int, int, int)>,
    e: (int, int, int, int),
)
    requires
        before.tiles@ == corridors_over(first, before.width as int, ends, ends.len() as int),
        corridor_drawn(before, after, e.0, e.1, e.2, e.3),
    ensures
        after.tiles@ == corridors_over(first, after.width as int, ends.push(e), ends.len() as int + 1),
{
    let w = before.width as int;
    let more = ends.push(e);
    lemma_corridors_prefix(first, w, more, ends, ends.len() as int);
    assert(after.tiles@ =~= corridors_over(first, w, more, ends.len() as int + 1));
}

/// The point `(x, y)` lies in the room, its far edges left out.
pub open spec fn point_in(room: Rect, x: int, y: int) -> bool {
    room.x1 <= x < room.x2 && room.y1 <= y < room.y2
}

/// There is one corridor from each room to the next, from a point of the
/// one to a point of the other.
pub open spec fn corridors_between(rooms: Seq<Rect>, ends: Seq<(int, int, int, int)>) -> bool {
    &&& ends.len() == (if rooms.len() == 0 {
        0int
    } else {
        rooms.len() - 1
    })
    &&& forall|k: int|
        0 <= k < ends.len() ==> point_in(rooms[k], (#[trigger] ends[k]).0, ends[k].1) && point_in(
            rooms[k + 1],
            ends[k].2,
            ends[k].3,
        )
}

/// Every carved cell of the corridor has all eight neighbours on the map.
pub open spec fn corridor_fits(map: &TileMap, x1: int, y1: int, x2: int, y2: int) -> bool {
    forall|cx: int, cy: int| #[trigger]
        on_corridor(x1, y1, x2, y2, cx, cy) ==> 1 <= cx <= map.width - 2 && 1 <= cy <= map.height - 2
}

/// Turns the cell at `(x, y)` into a wall unless it is floor.
fn wall_unless_floor(map: &mut TileMap, x: i32, y: i32)
    requires
        old(map).wf(),
        old(map).in_bounds(x as int, y as int),
    ensures
        final(map).same_frame(old(map)),
        forall|i: int|
            0 <= i < final(map).tiles@.len() ==> #[trigger] final(map).tiles@[i] == (if old(map).x_of(i) == x
                && old(map).y_of(i) == y && old(map).tiles@[i] != TileType::Floor {
                TileType::Wall
            } else {
                old(map).tiles@[i]
            }),
{
    let t: TileType = map.tile(x, y);
    proof {
        assert forall|i: int| 0 <= i < map.tiles@.len() && map.x_of(i) == x && map.y_of(i) == y implies i
            == map.idx(x as int, y as int) by {
            map.lemma_cell_of_index(i);
        }
    }
    if t != TileType::Floor {
        map.set_tile(x, y, TileType::Wall);
    }
}

/// Carves floor at `(x, y)` and walls in the eight cells around it,
/// except where there is floor.
fn carve_with_walls(map: &mut TileMap, x: i32, y: i32)
    requires
        old(map).wf(),
        1 <= x <= old(map).width - 2,
        1 <= y <= old(map).height - 2,
    ensures
        final(map).same_frame(old(map)),
        forall|i: int|
            0 <= i < final(map).tiles@.len() ==> #[trigger] final(map).tiles@[i] == ({
                let cx = old(map).x_of(i);
                let cy = old(map).y_of(i);
                if cx == x && cy == y {
                    TileType::Floor
                } else if x - 1 <= cx <= x + 1 && y - 1 <= cy <= y + 1 && old(map).tiles@[i]
                    != TileType::Floor {
                    TileType::Wall
                } else {
                    old(map).tiles@[i]
                }
            }),
{
    map.set_tile(x, y, TileType::Floor);
    wall_unless_floor(map, x - 1, y - 1);
    wall_unless_floor(map, x, y - 1);
    wall_unless_floor(map, x + 1, y - 1);
    wall_unless_floor(map, x - 1, y);
    wall_unless_floor(map, x + 1, y);
    wall_unless_floor(map, x - 1, y + 1);
    wall_unless_floor(map, x, y + 1);
    wall_unless_floor(map, x + 1, y + 1);
}

/// Carves a corridor from `(x1, y1)` along the row to column `x2` and on along the column to `(x2, y2)`,
/// the first cell left out, and walls it in where there is no floor.
pub fn draw_corridor(map: &mut TileMap, x1: i32, y1: i32, x2: i32, y2: i32)
    requires
        old(map).wf(),
        corridor_fits(old(map), x1 as int, y1 as int, x2 as int, y2 as int),
    ensures
        final(map).same_frame(old(map)),
        forall|i: int|
            0 <= i < final(map).tiles@.len() ==> #[trigger] final(map).tiles@[i] == corridor_tile(
                x1 as int,
                y1 as int,
                x2 as int,
                y2 as int,
                old(map).x_of(i),
                old(map).y_of(i),
                old(map).tiles@[i],
            ),
{
    let mut x: i32 = x1;
    let mut y: i32 = y1;
    while x != x2 || y != y2
        invariant
            map.same_frame(old(map)),
            corridor_fits(old(map), x1 as int, y1 as int, x2 as int, y2 as int),
            between(x1 as int, x2 as int, x as int),
            between(y1 as int, y2 as int, y as int),
            y == y1 || x == x2,
            forall|i: int|
                0 <= i < map.tiles@.len() ==> #[trigger] map.tiles@[i] == corridor_tile(
                    x1 as int,
                    y1 as int,
                    x as int,
                    y as int,
                    old(map).x_of(i),
                    old(map).y_of(i),
                    old(map).tiles@[i],
                ),
        decreases (if x <= x2 { x2 - x } else { x - x2 }) + (if y <= y2 { y2 - y } else { y - y2 }),
    {
        let ghost px = x as int;
        let ghost py = y as int;
        if x < x2 {
            x += 1;
        } else if x > x2 {
            x -= 1;
        } else if y < y2 {
            y += 1;
        } else if y > y2 {
            y -= 1;
        }
        proof {
            assert(on_corridor(x1 as int, y1 as int, x2 as int, y2 as int, x as int, y as int));
        }
        carve_with_walls(map, x, y);
        proof {
            assert forall|i: int| 0 <= i < map.tiles@.len() implies #[trigger] map.tiles@[i] == corridor_tile(
                x1 as int,
                y1 as int,
                x as int,
                y as int,
                old(map).x_of(i),
                old(map).y_of(i),
                old(map).tiles@[i],
            ) by {
                let cx = old(map).x_of(i);
                let cy = old(map).y_of(i);
                assert(forall|ax: int, ay: int|
                    on_corridor(x1 as int, y1 as int, x as int, y as int, ax, ay) == (on_corridor(
                        x1 as int,
                        y1 as int,
                        px,
                        py,
                        ax,
                        ay,
                    ) || (ax == x && ay == y)));
            }
        }
    }
}

/// Carves a corridor along row `y` between the columns `x1` and `x2`, from the lower to the higher.
pub fn apply_horizontal_tunnel(map: &mut TileMap, x1: i32, x2: i32, y: i32)
    requires
        old(map).wf(),
        corridor_fits(
            old(map),
            if x1 <= x2 { x1 as int } else { x2 as int },
            y as int,
            if x1 <= x2 { x2 as int } else { x1 as int },
            y as int,
        ),
    ensures
        final(map).same_frame(old(map)),
        forall|i: int|
            0 <= i < final(map).tiles@.len() ==> #[trigger] final(map).tiles@[i] == corridor_tile(
                if x1 <= x2 { x1 as int } else { x2 as int },
                y as int,
                if x1 <= x2 { x2 as int } else { x1 as int },
                y as int,
                old(map).x_of(i),
                old(map).y_of(i),
                old(map).tiles@[i],
            ),
{
    let lft: i32 = if x1 <= x2 { x1 } else { x2 };
    let rgt: i32 = if x1 <= x2 { x2 } else { x1 };
    draw_corridor(map, lft, y, rgt, y);
}

/// Carves a corridor along column `x` between the rows `y1` and `y2`, from the lower to the higher.
pub fn apply_vertical_tunnel(map: &mut TileMap, y1: i32, y2: i32, x: i32)
    requires
        old(map).wf(),
        corridor_fits(
            old(map),
            x as int,
            if y1 <= y2 { y1 as int } else { y2 as int },
            x as int,
            if y1 <= y2 { y2 as int } else { y1 as int },
        ),
    ensures
        final(map).same_frame(old(map)),
        forall|i: int|
            0 <= i < final(map).tiles@.len() ==> #[trigger] final(map).tiles@[i] == corridor_tile(
                x as int,
                if y1 <= y2 { y1 as int } else { y2 as int },
                x as int,
                if y1 <= y2 { y2 as int } else { y1 as int },
                old(map).x_of(i),
                old(map).y_of(i),
                old(map).tiles@[i],
            ),
{
    let top: i32 = if y1 <= y2 { y1 } else { y2 };
    let btm: i32 = if y1 <= y2 { y2 } else { y1 };
    draw_corridor(map, x, top, x, btm);
}

/// What pruning leaves of a tile: floor that no route from `start` reaches
/// becomes a wall, everything else stays.
pub open spec fn pruned_tile(t: Terrain, start: int, i: int, before: TileType) -> TileType {
    if before == TileType::Floor && !t.connected(start, i, MAX_COST as int) {
        TileType::Wall
    } else {
        before
    }
}

/// `e` is the reachable floor cell farthest from `start`, and the first
/// such cell in index order.
pub open spec fn is_farthest_floor(t: Terrain, tiles: Seq<TileType>, start: int, e: int) -> bool {
    &&& 0 <= e < tiles.len()
    &&& e != start
    &&& tiles[e] == TileType::Floor
    &&& t.connected(start, e, MAX_COST as int)
    &&& forall|j: int|
        0 <= j < tiles.len() && #[trigger] tiles[j] == TileType::Floor && t.connected(
            start,
            j,
            MAX_COST as int,
        ) ==> t.distance(start, j) <= t.distance(start, e) && (j < e ==> t.distance(start, j)
            < t.distance(start, e))
}

/// Routes survive a change of tiles that blocks no cell a route reaches.
pub proof fn lemma_connected_stays(
    before: Seq<TileType>,
    after: Seq<TileType>,
    width: int,
    height: int,
    start: int,
    i: int,
)
    requires
        before.len() == after.len(),
        terrain_of(before, width, height).connected(start, i, MAX_COST as int),
        forall|j: int|
            0 <= j < before.len() && !tile_blocks(#[trigger] before[j]) && terrain_of(
                before,
                width,
                height,
            ).connected(start, j, MAX_COST as int) ==> !tile_blocks(after[j]),
    ensures
        terrain_of(after, width, height).connected(start, i, MAX_COST as int),
{
    let t = terrain_of(before, width, height);
    let t2 = terrain_of(after, width, height);
    let c = choose|c: int| c < MAX_COST && #[trigger] t.reaches(start, i, c);
    let p = choose|p: Seq<int>| #[trigger] t.is_route(p, start, i) && t.route_cost(p) == c;
    assert forall|k: int| 1 <= k < p.len() implies !t2.blocked[#[trigger] p[k]] by {
        t.lemma_route_prefix(p, start, i, k);
        let q = p.subrange(0, k + 1);
        assert(t.is_route(q, start, p[k]));
        assert(t.reaches(start, p[k], t.route_cost(q)));
        assert(t.connected(start, p[k], MAX_COST as int));
        assert(t.step(p[k - 1], p[k - 1 + 1]));
        assert(!tile_blocks(before[p[k]]));
    }
    t.lemma_route_transfer(t2, p, start, i);
    assert(t2.reaches(start, i, c));
}

/// Turns every floor tile that no route from `start_idx` reaches into a
/// wall, and returns the reachable floor tile farthest from `start_idx`,
/// where there is one besides the start itself.
pub fn remove_unreachable_areas_returning_most_distant(map: &mut TileMap, start_idx: usize) -> (exit: Option<
    usize,
>)
    requires
        old(map).wf(),
        start_idx < old(map).tiles@.len(),
    ensures
        final(map).wf(),
        final(map).same_shape(old(map)),
        final(map).revealed_tiles@ == old(map).revealed_tiles@,
        final(map).visible_tiles@ == old(map).visible_tiles@,
        final(map).terrain() == terrain_of(old(map).tiles@, old(map).width as int, old(map).height as int),
        forall|i: int|
            0 <= i < final(map).tiles@.len() ==> #[trigger] final(map).tiles@[i] == pruned_tile(
                final(map).terrain(),
                start_idx as int,
                i,
                old(map).tiles@[i],
            ),
        match exit {
            Some(e) => is_farthest_floor(final(map).terrain(), old(map).tiles@, start_idx as int, e as int),
            None => forall|j: int|
                0 <= j < old(map).tiles@.len() && j != start_idx ==> !(#[trigger] old(map).tiles@[j]
                    == TileType::Floor && final(map).terrain().connected(
                    start_idx as int,
                    j,
                    MAX_COST as int,
                )),
        },
        forall|i: int|
            0 <= i < final(map).tiles@.len() && #[trigger] final(map).tiles@[i] == TileType::Floor
                ==> terrain_of(final(map).tiles@, final(map).width as int, final(map).height as int).connected(
                start_idx as int,
                i,
                MAX_COST as int,
            ),
{
    map.populate_blocked();
    let ghost t = map.terrain();
    let ghost start = start_idx as int;
    proof {
        assert(t.blocked =~= terrain_of(old(map).tiles@, old(map).width as int, old(map).height as int).blocked);
    }
    let dist: Vec<u32> = distance_field(map, start_idx, MAX_COST);
    let n: usize = map.tiles.len();
    let mut exit: Option<usize> = None;
    let mut best: u32 = 0;
    let mut i: usize = 0;
    while i < n
        invariant
            i <= n,
            n == map.tiles@.len(),
            map.wf(),
            old(map).wf(),
            map.same_shape(old(map)),
            map.revealed_tiles@ == old(map).revealed_tiles@,
            map.visible_tiles@ == old(map).visible_tiles@,
            map.terrain() == t,
            start == start_idx,
            start_idx < n,
            is_field(t, start, MAX_COST as int, dist@),
            dist@[start] == 0,
            forall|j: int|
                0 <= j < n ==> #[trigger] map.tiles@[j] == (if j < i {
                    pruned_tile(t, start, j, old(map).tiles@[j])
                } else {
                    old(map).tiles@[j]
                }),
            match exit {
                Some(e) => e < i && e != start_idx && old(map).tiles@[e as int] == TileType::Floor && dist@[e as int]
                    == best && best != UNREACHED && best > 0,
                None => best == 0,
            },
            forall|j: int|
                0 <= j < i && #[trigger] old(map).tiles@[j] == TileType::Floor && dist@[j] != UNREACHED
                    ==> dist@[j] <= best && (exit matches Some(e) && j < e ==> dist@[j] < best),
        decreases n - i,
    {
        proof {
            lemma_field_meaning(t, start, MAX_COST as int, dist@, i as int);
        }
        if map.tiles[i] == TileType::Floor {
            let d: u32 = dist[i];
            if d == UNREACHED {
                map.tiles[i] = TileType::Wall;
            } else if d > best {
                proof {
                    if i == start_idx {
                        assert(d == 0);
                    }
                }
                exit = Some(i);
                best = d;
            }
        }
        i += 1;
    }
    proof {
        assert forall|j: int| 0 <= j < n implies (dist@[j] != UNREACHED <==> t.connected(
            start,
            j,
            MAX_COST as int,
        )) && (dist@[j] != UNREACHED ==> t.distance(start, j) == dist@[j]) by {
            lemma_field_meaning(t, start, MAX_COST as int, dist@, j);
        }
        match exit {
            Some(e) => {
                assert(is_farthest_floor(t, old(map).tiles@, start, e as int));
            },
            None => {
                assert forall|j: int| 0 <= j < n && j != start_idx implies !(#[trigger] old(map).tiles@[j]
                    == TileType::Floor && t.connected(start, j, MAX_COST as int)) by {
                    if old(map).tiles@[j] == TileType::Floor && t.connected(start, j, MAX_COST as int) {
                        assert(dist@[j] != UNREACHED);
                        t.lemma_free_route_stays(start, j, dist@[j] as int);
                    }
                }
            },
        }
        assert forall|k: int| 0 <= k < n && #[trigger] map.tiles@[k] == TileType::Floor implies terrain_of(
            map.tiles@,
            map.width as int,
            map.height as int,
        ).connected(start, k, MAX_COST as int) by {
            lemma_connected_stays(old(map).tiles@, map.tiles@, map.width as int, map.height as int, start, k);
        }
    }
    exit
}

/// A cell that can belong to a spawn region: floor, and not on the rim of
/// the map.
pub open spec fn is_region_cell(tiles: Seq<TileType>, width: int, height: int, i: int) -> bool {
    &&& 0 <= i < tiles.len()
    &&& 1 <= i % width < width - 1
    &&& 1 <= i / width < height - 1
    &&& tiles[i] == TileType::Floor
}

/// The region cells among the first `n` cells whose value is `id`, in
/// index order.
pub open spec fn region_members(
    tiles: Seq<TileType>,
    width: int,
    height: int,
    values: Seq<i32>,
    id: i32,
    n: int,
) -> Seq<usize>
    decreases n,
{
    if n <= 0 {
        Seq::empty()
    } else {
        let rest = region_members(tiles, width, height, values, id, n - 1);
        if is_region_cell(tiles, width, height, n - 1) && values[n - 1] == id {
            rest.push((n - 1) as usize)
        } else {
            rest
        }
    }
}

/// A cell is listed under `id` exactly when it is a region cell with that
/// value.
pub proof fn lemma_region_members(
    tiles: Seq<TileType>,
    width: int,
    height: int,
    values: Seq<i32>,
    id: i32,
    n: int,
    i: int,
)
    requires
        0 <= n <= tiles.len() <= usize::MAX,
    ensures
        region_members(tiles, width, height, values, id, n).contains(i as usize) && 0 <= i <= usize::MAX <==> 0
            <= i < n && is_region_cell(tiles, width, height, i) && values[i] == id,
    decreases n,
{
    if n > 0 {
        let rest = region_members(tiles, width, height, values, id, n - 1);
        lemma_region_members(tiles, width, height, values, id, n - 1, i);
        if is_region_cell(tiles, width, height, n - 1) && values[n - 1] == id {
            let all = rest.push((n - 1) as usize);
            assert(all[all.len() - 1] == (n - 1) as usize);
            if 0 <= i <= usize::MAX && all.contains(i as usize) {
                let k = choose|k: int| 0 <= k < all.len() && all[k] == i as usize;
                if k < rest.len() {
                    assert(rest[k] == i as usize);
                }
            }
            if 0 <= i < n - 1 && rest.contains(i as usize) {
                let k = choose|k: int| 0 <= k < rest.len() && rest[k] == i as usize;
                assert(all[k] == i as usize);
            }
        }
    } else {
        assert(region_members(tiles, width, height, values, id, n) =~= Seq::<usize>::empty());
    }
}

/// Every floor cell inside the rim of the map belongs to exactly one
/// region: the one named by its value.
pub proof fn lemma_regions_cover(
    tiles: Seq<TileType>,
    width: int,
    height: int,
    values: Seq<i32>,
    areas: Map<i32, Vec<usize>>,
    i: int,
)
    requires
        tiles.len() <= usize::MAX,
        forall|id: i32| #[trigger]
            areas.contains_key(id) <==> region_members(tiles, width, height, values, id, tiles.len() as int).len()
                > 0,
        forall|id: i32| #[trigger]
            areas.contains_key(id) ==> areas[id]@ == region_members(
                tiles,
                width,
                height,
                values,
                id,
                tiles.len() as int,
            ),
        is_region_cell(tiles, width, height, i),
    ensures
        areas.contains_key(values[i]),
        areas[values[i]]@.contains(i as usize),
        forall|id: i32| #[trigger] areas.contains_key(id) && areas[id]@.contains(i as usize) ==> id == values[i],
{
    let n = tiles.len() as int;
    lemma_region_members(tiles, width, height, values, values[i], n, i);
    let own = region_members(tiles, width, height, values, values[i], n);
    assert(own.contains(i as usize));
    assert(own.len() > 0);
    assert(areas.contains_key(values[i]));
    assert(areas[values[i]]@ == own);
    assert forall|id: i32| #[trigger] areas.contains_key(id) && areas[id]@.contains(i as usize) implies id
        == values[i] by {
        lemma_region_members(tiles, width, height, values, id, n, i);
    }
}

/// Groups the floor cells inside the rim of the map by the value that
/// `cell_values` gives each of them: one list of cell indices per value,
/// in index order. With the values of a cellular noise field the regions
/// are buckets of that noise, which look like the cells of a Voronoi
/// diagram but are not the cells of one.
pub fn generate_voronoi_spawn_regions(map: &TileMap, cell_values: &Vec<i32>) -> (areas: HashMap<i32, Vec<usize>>)
    requires
        map.wf(),
        cell_values@.len() == map.tiles@.len(),
    ensures
        forall|id: i32| #[trigger]
            areas@.contains_key(id) <==> region_members(
                map.tiles@,
                map.width as int,
                map.height as int,
                cell_values@,
                id,
                map.tiles@.len() as int,
            ).len() > 0,
        forall|id: i32| #[trigger]
            areas@.contains_key(id) ==> areas@[id]@ == region_members(
                map.tiles@,
                map.width as int,
                map.height as int,
                cell_values@,
                id,
                map.tiles@.len() as int,
            ),
{
    broadcast use vstd::std_specs::hash::group_hash_axioms;

    let mut areas: HashMap<i32, Vec<usize>> = HashMap::new();
    let n: usize = map.tiles.len();
    let w: usize = map.width as usize;
    let h: usize = map.height as usize;
    let ghost tiles = map.tiles@;
    let ghost wi = map.width as int;
    let ghost hi = map.height as int;
    let mut i: usize = 0;
    while i < n
        invariant
            i <= n,
            n == map.tiles@.len(),
            map.wf(),
            tiles == map.tiles@,
            wi == map.width,
            hi == map.height,
            w == map.width,
            h == map.height,
            cell_values@.len() == n,
            forall|id: i32| #[trigger]
                areas@.contains_key(id) <==> region_members(tiles, wi, hi, cell_values@, id, i as int).len() > 0,
            forall|id: i32| #[trigger]
                areas@.contains_key(id) ==> areas@[id]@ == region_members(tiles, wi, hi, cell_values@, id, i as int),
        decreases n - i,
    {
        let x: usize = i % w;
        let y: usize = i / w;
        if 1 <= x && x + 1 < w && 1 <= y && y + 1 < h && map.tiles[i] == TileType::Floor {
            let id: i32 = cell_values[i];
            let found: Option<Vec<usize>> = areas.remove(&id);
            let mut members: Vec<usize> = match found {
                Some(list) => list,
                None => Vec::new(),
            };
            proof {
                assert(members@ =~= region_members(tiles, wi, hi, cell_values@, id, i as int));
            }
            members.push(i);
            areas.insert(id, members);
        }
        i += 1;
    }
    areas
}

/// Whether a brush of size `brush_size` put down at `(x, y)` covers
/// `(cx, cy)`. Size 1 covers the one cell; a larger brush covers a square
/// of `2 * (brush_size / 2)` cells a side, clipped two cells inside the
/// map's edge.
pub open spec fn in_brush(width: int, height: int, brush_size: int, x: int, y: int, cx: int, cy: int) -> bool {
    if brush_size == 1 {
        cx == x && cy == y
    } else if brush_size >= 2 {
        let half = brush_size / 2;
        &&& x - half <= cx < x + half
        &&& y - half <= cy < y + half
        &&& 1 < cx < width - 1
        &&& 1 < cy < height - 1
    } else {
        false
    }
}

/// Puts the brush down at `(x, y)` once.
pub fn apply_paint(map: &mut TileMap, brush_size: i32, x: i32, y: i32, tile: TileType)
    requires
        old(map).wf(),
        brush_size == 1 ==> old(map).in_bounds(x as int, y as int),
    ensures
        final(map).same_frame(old(map)),
        forall|i: int|
            0 <= i < final(map).tiles@.len() ==> #[trigger] final(map).tiles@[i] == (if in_brush(
                old(map).width as int,
                old(map).height as int,
                brush_size as int,
                x as int,
                y as int,
                old(map).x_of(i),
                old(map).y_of(i),
            ) {
                tile
            } else {
                old(map).tiles@[i]
            }),
{
    if brush_size == 1 {
        map.set_tile(x, y, tile);
    } else if brush_size >= 2 {
        let half: i64 = (brush_size / 2) as i64;
        let w: i64 = map.width as i64;
        let h: i64 = map.height as i64;
        let lo_y: i64 = if y as i64 - half > 2 { y as i64 - half } else { 2 };
        let hi_y: i64 = if y as i64 + half < h - 1 { y as i64 + half } else { h - 1 };
        let lo_x: i64 = if x as i64 - half > 2 { x as i64 - half } else { 2 };
        let hi_x: i64 = if x as i64 + half < w - 1 { x as i64 + half } else { w - 1 };
        let mut brush_y: i64 = lo_y;
        while brush_y < hi_y
            invariant
                map.same_frame(old(map)),
                w == map.width,
                h == map.height,
                2 <= lo_y <= brush_y,
                brush_y <= hi_y || brush_y == lo_y,
                2 <= lo_x,
                hi_y <= h - 1,
                hi_x <= w - 1,
                forall|i: int|
                    0 <= i < map.tiles@.len() ==> #[trigger] map.tiles@[i] == (if lo_x <= old(map).x_of(i) < hi_x
                        && lo_y <= old(map).y_of(i) < brush_y {
                        tile
                    } else {
                        old(map).tiles@[i]
                    }),
            decreases hi_y - brush_y,
        {
            let mut brush_x: i64 = lo_x;
            while brush_x < hi_x
                invariant
                    map.same_frame(old(map)),
                    w == map.width,
                    h == map.height,
                    2 <= lo_y <= brush_y < hi_y,
                    2 <= lo_x <= brush_x,
                    brush_x <= hi_x || brush_x == lo_x,
                    hi_y <= h - 1,
                    hi_x <= w - 1,
                    forall|i: int|
                        0 <= i < map.tiles@.len() ==> #[trigger] map.tiles@[i] == (if (lo_x <= old(map).x_of(i)
                            < hi_x && lo_y <= old(map).y_of(i) < brush_y) || (lo_x <= old(map).x_of(i) < brush_x
                            && old(map).y_of(i) == brush_y) {
                            tile
                        } else {
                            old(map).tiles@[i]
                        }),
                decreases hi_x - brush_x,
            {
                map.set_tile(brush_x as i32, brush_y as i32, tile);
                brush_x += 1;
            }
            brush_y += 1;
        }
    }
}

/// The distance between `a` and `b`.
pub open spec fn gap(a: int, b: int) -> int {
    if a >= b {
        a - b
    } else {
        b - a
    }
}

/// Whether one stroke at `(x, y)` covers `(cx, cy)`: the brush is put down
/// at `(x, y)` and, under a symmetry, at the mirror images of that cell
/// about the map's middle column, middle row, or both.
pub open spec fn in_stroke(
    width: int,
    height: int,
    mode: Symmetry,
    brush_size: int,
    x: int,
    y: int,
    cx: int,
    cy: int,
) -> bool {
    let center_x = width / 2;
    let center_y = height / 2;
    let dist_x = gap(center_x, x);
    let dist_y = gap(center_y, y);
    let left = in_brush(width, height, brush_size, center_x - dist_x, y, cx, cy);
    let right = in_brush(width, height, brush_size, center_x + dist_x, y, cx, cy);
    let above = in_brush(width, height, brush_size, x, center_y - dist_y, cx, cy);
    let below = in_brush(width, height, brush_size, x, center_y + dist_y, cx, cy);
    let plain = in_brush(width, height, brush_size, x, y, cx, cy);
    match mode {
        Symmetry::Neither => plain,
        Symmetry::Horizontal => if x == center_x {
            plain
        } else {
            left || right
        },
        Symmetry::Vertical => if y == center_y {
            plain
        } else {
            above || below
        },
        Symmetry::Both => if x == center_x && y == center_y {
            plain
        } else {
            left || right || above || below
        },
    }
}

/// The brush positions of a stroke are representable, and with a brush of
/// size 1 they all lie on the map.
pub open spec fn stroke_fits(map: &TileMap, mode: Symmetry, brush_size: int, x: int, y: int) -> bool {
    let center_x = map.width / 2;
    let center_y = map.height / 2;
    let dist_x = gap(center_x as int, x);
    let dist_y = gap(center_y as int, y);
    let mirror_x = mode == Symmetry::Horizontal || mode == Symmetry::Both;
    let mirror_y = mode == Symmetry::Vertical || mode == Symmetry::Both;
    &&& mirror_x ==> i32::MIN <= center_x - dist_x && center_x + dist_x <= i32::MAX
    &&& mirror_y ==> i32::MIN <= center_y - dist_y && center_y + dist_y <= i32::MAX
    &&& brush_size == 1 ==> {
        &&& map.in_bounds(x, y)
        &&& mirror_x ==> map.in_bounds(center_x + dist_x, y) && map.in_bounds(center_x - dist_x, y)
        &&& mirror_y ==> map.in_bounds(x, center_y + dist_y) && map.in_bounds(x, center_y - dist_y)
    }
}

/// Paints one stroke with `tile`, or with floor where none is given.
pub fn paint(map: &mut TileMap, mode: Symmetry, brush_size: i32, x: i32, y: i32, tile: Option<TileType>)
    requires
        old(map).wf(),
        stroke_fits(old(map), mode, brush_size as int, x as int, y as int),
    ensures
        final(map).same_frame(old(map)),
        forall|i: int|
            0 <= i < final(map).tiles@.len() ==> #[trigger] final(map).tiles@[i] == (if in_stroke(
                old(map).width as int,
                old(map).height as int,
                mode,
                brush_size as int,
                x as int,
                y as int,
                old(map).x_of(i),
                old(map).y_of(i),
            ) {
                match tile {
                    Some(t) => t,
                    None => TileType::Floor,
                }
            } else {
                old(map).tiles@[i]
            }),
{
    let tile: TileType = match tile {
        Some(t) => t,
        None => TileType::Floor,
    };
    let center_x: i32 = map.width / 2;
    let center_y: i32 = map.height / 2;
    match mode {
        Symmetry::Neither => apply_paint(map, brush_size, x, y, tile),
        Symmetry::Horizontal => {
            if x == center_x {
                apply_paint(map, brush_size, x, y, tile)
            } else {
                let dist_x: i32 = if center_x >= x { center_x - x } else { x - center_x };
                apply_paint(map, brush_size, center_x + dist_x, y, tile);
                apply_paint(map, brush_size, center_x - dist_x, y, tile);
            }
        },
        Symmetry::Vertical => {
            if y == center_y {
                apply_paint(map, brush_size, x, y, tile)
            } else {
                let dist_y: i32 = if center_y >= y { center_y - y } else { y - center_y };
                apply_paint(map, brush_size, x, center_y + dist_y, tile);
                apply_paint(map, brush_size, x, center_y - dist_y, tile);
            }
        },
        Symmetry::Both => {
            if x == center_x && y == center_y {
                apply_paint(map, brush_size, x, y, tile)
            } else {
                let dist_x: i32 = if center_x >= x { center_x - x } else { x - center_x };
                apply_paint(map, brush_size, center_x + dist_x, y, tile);
                apply_paint(map, brush_size, center_x - dist_x, y, tile);
                let dist_y: i32 = if center_y >= y { center_y - y } else { y - center_y };
                apply_paint(map, brush_size, x, center_y + dist_y, tile);
                apply_paint(map, brush_size, x, center_y - dist_y, tile);
            }
        },
    }
}

/// Why a level could not be built.
#[derive(PartialEq, Eq, Copy, Clone, Debug, Structural)]
pub enum BuildError {
    /// No room could be placed.
    NoRooms,
    /// No floor tile was found to start from.
    NoStart,
    /// No floor tile besides the start can be reached, so there is nowhere
    /// to put the stairs.
    NoExit,
    /// A random process did not come to its end within its step limit.
    StepLimit,
    /// The pattern solver ran into a contradiction on every attempt.
    Unsolvable,
}

/// No tile is a stairway or a placeholder: there is nothing but void,
/// walls and floor.
pub open spec fn plain_tiles(tiles: Seq<TileType>) -> bool {
    forall|i: int|
        0 <= i < tiles.len() ==> #[trigger] tiles[i] != TileType::DownStairs && tiles[i] != TileType::Placeholder
}

/// On plain tiles a route enters floor tiles only.
pub proof fn lemma_route_over_floor(tiles: Seq<TileType>, width: int, height: int, p: Seq<int>, from: int, to: int)
    requires
        plain_tiles(tiles),
        terrain_of(tiles, width, height).is_route(p, from, to),
    ensures
        forall|k: int| 1 <= k < p.len() ==> tiles[#[trigger] p[k]] == TileType::Floor,
{
    let t = terrain_of(tiles, width, height);
    assert forall|k: int| 1 <= k < p.len() implies tiles[#[trigger] p[k]] == TileType::Floor by {
        assert(t.step(p[k - 1], p[k - 1 + 1]));
        assert(!tile_blocks(tiles[p[k]]));
    }
}

/// The level can be played from `start`: it has exactly one stairway
/// down, at `exit`, no placeholder is left, the start is floor, and a
/// route from `start` reaches the stairway and every floor tile.
pub open spec fn playable(map: &TileMap, start: int, exit: int) -> bool {
    &&& map.wf()
    &&& 0 <= start < map.tiles@.len()
    &&& 0 <= exit < map.tiles@.len()
    &&& start != exit
    &&& map.tiles@[start] == TileType::Floor
    &&& forall|i: int|
        0 <= i < map.tiles@.len() ==> (#[trigger] map.tiles@[i] == TileType::DownStairs <==> i == exit)
    &&& forall|i: int| 0 <= i < map.tiles@.len() ==> #[trigger] map.tiles@[i] != TileType::Placeholder
    &&& forall|i: int|
        0 <= i < map.tiles@.len() && (#[trigger] map.tiles@[i] == TileType::Floor || i == exit) ==> terrain_of(
            map.tiles@,
            map.width as int,
            map.height as int,
        ).connected(start, i, MAX_COST as int)
}

/// No tile on the rim of the map is anything but a wall.
pub open spec fn rimmed(map: &TileMap) -> bool {
    forall|i: int|
        0 <= i < map.tiles@.len() && !(1 <= map.x_of(i) <= map.width - 2 && 1 <= map.y_of(i) <= map.height - 2)
            ==> #[trigger] map.tiles@[i] == TileType::Wall
}

/// The terrain of a map as its tiles are now.
pub open spec fn ground(map: &TileMap) -> Terrain {
    terrain_of(map.tiles@, map.width as int, map.height as int)
}

/// A route leads from `start` to every floor tile and to every stairway,
/// however long it may be.
pub open spec fn all_joined(map: &TileMap, start: int) -> bool {
    forall|i: int|
        0 <= i < map.tiles@.len() && (#[trigger] map.tiles@[i] == TileType::Floor || map.tiles@[i]
            == TileType::DownStairs) ==> ground(map).linked(start, i)
}

/// `after` is `before` with a corridor drawn from `(x1, y1)` to
/// `(x2, y2)`.
pub open spec fn corridor_drawn(before: &TileMap, after: &TileMap, x1: int, y1: int, x2: int, y2: int) -> bool {
    &&& after.same_frame(before)
    &&& forall|j: int|
        0 <= j < after.tiles@.len() ==> #[trigger] after.tiles@[j] == corridor_tile(
            x1,
            y1,
            x2,
            y2,
            before.x_of(j),
            before.y_of(j),
            before.tiles@[j],
        )
}

/// Drawing a corridor on bare tiles breaks no link.
pub proof fn lemma_corridor_keeps_links(
    before: &TileMap,
    after: &TileMap,
    x1: int,
    y1: int,
    x2: int,
    y2: int,
    from: int,
    to: int,
)
    requires
        corridor_drawn(before, after, x1, y1, x2, y2),
        plain_tiles(before.tiles@),
        ground(before).linked(from, to),
    ensures
        ground(after).linked(from, to),
{
    assert forall|j: int| 0 <= j < before.tiles@.len() && !tile_blocks(#[trigger] before.tiles@[j]) implies !tile_blocks(
        after.tiles@[j],
    ) by {
        assert(before.tiles@[j] == TileType::Floor);
        assert(after.tiles@[j] == TileType::Floor);
    }
    crate::map_builder::distance::lemma_links_stay(
        before.tiles@,
        after.tiles@,
        before.width as int,
        before.height as int,
        from,
        to,
    );
}

/// A corridor drawn from a floor tile links every cell that it carves to
/// whatever that tile is linked to.
pub proof fn lemma_corridor_joined(
    before: &TileMap,
    after: &TileMap,
    x1: int,
    y1: int,
    x2: int,
    y2: int,
    from: int,
)
    requires
        corridor_drawn(before, after, x1, y1, x2, y2),
        plain_tiles(before.tiles@),
        1 <= x1 <= before.width - 2,
        1 <= y1 <= before.height - 2,
        1 <= x2 <= before.width - 2,
        1 <= y2 <= before.height - 2,
        before.at(x1, y1) == TileType::Floor,
        ground(before).linked(from, before.idx(x1, y1)),
    ensures
        forall|x: int, y: int|
            (x == x1 && y == y1) || on_corridor(x1, y1, x2, y2, x, y) ==> ground(after).linked(
                from,
                #[trigger] crate::map::cell_index(before.width as int, x, y),
            ),
        ground(after).linked(from, crate::map::cell_index(before.width as int, x2, y2)),
{
    let w = before.width as int;
    let t = ground(after);
    before.lemma_idx_bounds(x1, y1);
    lemma_corridor_keeps_links(before, after, x1, y1, x2, y2, from, before.idx(x1, y1));
    assert forall|x: int, y: int| (x == x1 && y == y1) || on_corridor(x1, y1, x2, y2, x, y) implies #[trigger] t.open_at(
        x,
        y,
    ) by {
        before.lemma_idx_bounds(x, y);
        assert(after.tiles@[before.idx(x, y)] == TileType::Floor);
    }
    assert forall|x: int| crate::map_builder::distance::spanned(x1, x2, x) && x != x1 implies #[trigger] t.open_at(
        x,
        y1,
    ) by {
        assert(on_corridor(x1, y1, x2, y2, x, y1));
    }
    t.lemma_linked_row(from, y1, x1, x2);
    assert(crate::map_builder::distance::spanned(x1, x2, x2));
    assert(t.linked(from, crate::map::cell_index(w, x2, y1)));
    assert forall|y: int| crate::map_builder::distance::spanned(y1, y2, y) && y != y1 implies #[trigger] t.open_at(
        x2,
        y,
    ) by {
        assert(on_corridor(x1, y1, x2, y2, x2, y));
    }
    t.lemma_linked_column(from, x2, y1, y2);
    assert(crate::map_builder::distance::spanned(y1, y2, y2));
    assert forall|x: int, y: int| (x == x1 && y == y1) || on_corridor(x1, y1, x2, y2, x, y) implies t.linked(
        from,
        #[trigger] crate::map::cell_index(w, x, y),
    ) by {
        if y == y1 && between(x1, x2, x) {
            assert(crate::map_builder::distance::spanned(x1, x2, x));
        } else {
            assert(crate::map_builder::distance::spanned(y1, y2, y));
        }
    }
}

/// The largest cap that a distance field takes: far more than any route
/// on a map costs.
pub const NO_CAP: u32 = UNREACHED - DIAGONAL_COST;

/// A route cheaper than `cap` leads from `start` to every floor tile and
/// to every stairway.
pub open spec fn joined_within(map: &TileMap, start: int, cap: int) -> bool {
    forall|i: int|
        0 <= i < map.tiles@.len() && (#[trigger] map.tiles@[i] == TileType::Floor || map.tiles@[i]
            == TileType::DownStairs) ==> ground(map).connected(start, i, cap)
}

/// Whether a route of a cost below `NO_CAP` leads from `start_idx` to
/// every floor tile and to every stairway of the map.
pub fn is_joined(map: &TileMap, start_idx: usize) -> (joined: bool)
    requires
        map.wf(),
        start_idx < map.tiles@.len(),
    ensures
        joined == joined_within(map, start_idx as int, NO_CAP as int),
        joined ==> all_joined(map, start_idx as int),
{
    let mut copy: TileMap = map.duplicate();
    copy.populate_blocked();
    let ghost t = ground(map);
    proof {
        assert(copy.terrain().blocked =~= t.blocked);
        assert(copy.terrain() == t);
    }
    let dist: Vec<u32> = distance_field(&copy, start_idx, NO_CAP);
    let mut i: usize = 0;
    while i < map.tiles.len()
        invariant
            map.wf(),
            i <= map.tiles@.len(),
            t == ground(map),
            is_field(t, start_idx as int, NO_CAP as int, dist@),
            forall|j: int|
                0 <= j < i && (#[trigger] map.tiles@[j] == TileType::Floor || map.tiles@[j] == TileType::DownStairs)
                    ==> t.connected(start_idx as int, j, NO_CAP as int),
        decreases map.tiles@.len() - i,
    {
        proof {
            lemma_field_meaning(t, start_idx as int, NO_CAP as int, dist@, i as int);
        }
        if (map.tiles[i] == TileType::Floor || map.tiles[i] == TileType::DownStairs) && dist[i] == UNREACHED {
            return false;
        }
        i += 1;
    }
    proof {
        assert forall|j: int|
            0 <= j < map.tiles@.len() && (#[trigger] map.tiles@[j] == TileType::Floor || map.tiles@[j]
                == TileType::DownStairs) implies t.linked(start_idx as int, j) by {
            lemma_connected_is_linked(t, start_idx as int, j, NO_CAP as int);
        }
    }
    true
}

/// A route below a cap is a route.
pub proof fn lemma_connected_is_linked(t: Terrain, from: int, to: int, cap: int)
    requires
        t.connected(from, to, cap),
    ensures
        t.linked(from, to),
{
    let c = choose|c: int| c < cap && #[trigger] t.reaches(from, to, c);
    assert(t.reaches(from, to, c));
}

/// A level that can be played is joined.
pub proof fn lemma_playable_joined(map: &TileMap, start: int, exit: int)
    requires
        playable(map, start, exit),
    ensures
        all_joined(map, start),
{
    assert forall|j: int|
        0 <= j < map.tiles@.len() && (#[trigger] map.tiles@[j] == TileType::Floor || map.tiles@[j]
            == TileType::DownStairs) implies ground(map).linked(start, j) by {
        lemma_connected_is_linked(ground(map), start, j, MAX_COST as int);
    }
}

/// On a level that is joined from a start that can be entered, a route
/// leads from every floor tile and every stairway to every other, the
/// start among them.
pub proof fn lemma_joined_both_ways(map: &TileMap, start: int, from: int, to: int)
    requires
        all_joined(map, start),
        ground(map).open(start),
        0 <= from < map.tiles@.len(),
        0 <= to < map.tiles@.len(),
        map.tiles@[from] == TileType::Floor || map.tiles@[from] == TileType::DownStairs,
        map.tiles@[to] == TileType::Floor || map.tiles@[to] == TileType::DownStairs,
    ensures
        ground(map).linked(from, to),
        ground(map).linked(from, start),
{
    let t = ground(map);
    assert(t.linked(start, from));
    assert(t.linked(start, to));
    t.lemma_linked_back(start, from);
    t.lemma_linked_trans(from, start, to);
}

/// Putting the stairs on a floor tile leaves everything joined.
pub proof fn lemma_stairs_keep_joined(joined: &TileMap, after: &TileMap, from: int, e: int)
    requires
        after.same_frame(joined),
        0 <= e < joined.tiles@.len(),
        joined.tiles@[e] == TileType::Floor,
        after.tiles@ == joined.tiles@.update(e, TileType::DownStairs),
        all_joined(joined, from),
    ensures
        all_joined(after, from),
{
    assert forall|j: int|
        0 <= j < after.tiles@.len() && (#[trigger] after.tiles@[j] == TileType::Floor || after.tiles@[j]
            == TileType::DownStairs) implies ground(after).linked(from, j) by {
        assert(joined.tiles@[j] == TileType::Floor || joined.tiles@[j] == TileType::DownStairs);
        assert(ground(joined).linked(from, j));
        crate::map_builder::distance::lemma_links_stay(
            joined.tiles@,
            after.tiles@,
            joined.width as int,
            joined.height as int,
            from,
            j,
        );
    }
}

/// The tiles after pruning from `start`.
pub open spec fn pruned(tiles: Seq<TileType>, width: int, height: int, start: int) -> Seq<TileType> {
    Seq::new(tiles.len(), |i: int| pruned_tile(terrain_of(tiles, width, height), start, i, tiles[i]))
}

/// No floor tile but the start itself can be reached from `start`: the
/// level has no exit.
pub open spec fn no_exit(tiles: Seq<TileType>, width: int, height: int, start: int) -> bool {
    forall|j: int|
        0 <= j < tiles.len() && j != start ==> !(#[trigger] tiles[j] == TileType::Floor && terrain_of(
            tiles,
            width,
            height,
        ).connected(start, j, MAX_COST as int))
}

/// A level with a floor tile one step from the start has an exit.
pub proof fn lemma_floor_beside_start(tiles: Seq<TileType>, width: int, height: int, start: int, beside: int)
    requires
        0 <= start < tiles.len(),
        0 <= beside < tiles.len(),
        tiles[beside] == TileType::Floor,
        terrain_of(tiles, width, height).adjacent(start, beside),
    ensures
        !no_exit(tiles, width, height, start),
{
    let t = terrain_of(tiles, width, height);
    assert(t.is_route(seq![start], start, start));
    assert(t.step(start, beside));
    t.lemma_route_extend(seq![start], start, start, beside);
    assert(t.route_cost(seq![start]) == 0);
    assert(t.reaches(start, beside, t.step_cost(start, beside)));
    assert(t.connected(start, beside, MAX_COST as int));
}

/// What placing the exit makes of the tiles `drawn`: `after` is `drawn`
/// pruned from `start`, and, unless the level has no exit, with the
/// stairs on the reachable floor tile farthest from `start`; `found`
/// says whether it has one.
pub open spec fn exit_placed(
    drawn: Seq<TileType>,
    width: int,
    height: int,
    start: int,
    after: Seq<TileType>,
    found: bool,
) -> bool {
    if no_exit(drawn, width, height, start) {
        !found && after == pruned(drawn, width, height, start)
    } else {
        found && exists|e: int| #[trigger]
            is_farthest_floor(terrain_of(drawn, width, height), drawn, start, e) && after == pruned(
                drawn,
                width,
                height,
                start,
            ).update(e, TileType::DownStairs)
    }
}

/// `x` is the column of the first floor tile met when walking left along
/// row `y` from column `from`.
pub open spec fn is_first_floor_leftward(tiles: Seq<TileType>, width: int, from: int, y: int, x: int) -> bool {
    &&& 0 <= x <= from
    &&& tiles[cell_index(width, x, y)] == TileType::Floor
    &&& forall|cx: int| x < cx <= from ==> tiles[#[trigger] cell_index(width, cx, y)] != TileType::Floor
}

/// No floor tile is met when walking left along row `y` from column
/// `from`.
pub open spec fn no_floor_leftward(tiles: Seq<TileType>, width: int, from: int, y: int) -> bool {
    forall|cx: int| 0 <= cx <= from ==> tiles[#[trigger] cell_index(width, cx, y)] != TileType::Floor
}

/// What finishing a level from the cell `start` makes of the tiles
/// `drawn`. Where the start is not floor the result is `NoStart` and the
/// tiles stay as drawn. Otherwise the tiles are pruned from the start and
/// the stairs put on the farthest floor tile that can be reached, and
/// the result is `NoExit` if and only if there is none but the start.
pub open spec fn finished_from(
    drawn: Seq<TileType>,
    width: int,
    height: int,
    start: int,
    after: Seq<TileType>,
    r: Result<(), BuildError>,
) -> bool {
    if drawn[start] != TileType::Floor {
        r == Err::<(), BuildError>(BuildError::NoStart) && after == drawn
    } else {
        exit_placed(drawn, width, height, start, after, r is Ok) && (r is Err ==> r == Err::<(), BuildError>(
            BuildError::NoExit,
        ))
    }
}

/// What finishing a level makes of the tiles `drawn` where the start is
/// looked for along the middle row, walking left from the middle of the
/// map. Where no floor tile is met the result is `NoStart` and the tiles
/// stay as drawn. Otherwise the start, at `(x, y)`, is the first floor
/// tile met, and the level is finished from there.
pub open spec fn finished_leftward(
    drawn: Seq<TileType>,
    width: int,
    height: int,
    x: int,
    y: int,
    after: Seq<TileType>,
    r: Result<(), BuildError>,
) -> bool {
    let row = height / 2;
    if no_floor_leftward(drawn, width, width / 2, row) {
        r == Err::<(), BuildError>(BuildError::NoStart) && after == drawn
    } else {
        &&& y == row
        &&& is_first_floor_leftward(drawn, width, width / 2, row, x)
        &&& finished_from(drawn, width, height, cell_index(width, x, y), after, r)
    }
}

/// Prunes the floor that cannot be reached from `start_idx` and puts the
/// stairs down on the reachable floor tile farthest from it. Leaves the
/// map pruned and without stairs where the start is the only floor tile
/// that can be reached.
pub fn place_exit(map: &mut TileMap, start_idx: usize) -> (exit: Option<usize>)
    requires
        old(map).wf(),
        start_idx < old(map).tiles@.len(),
        old(map).tiles@[start_idx as int] == TileType::Floor,
        plain_tiles(old(map).tiles@),
    ensures
        final(map).wf(),
        final(map).same_shape(old(map)),
        final(map).revealed_tiles@ == old(map).revealed_tiles@,
        final(map).visible_tiles@ == old(map).visible_tiles@,
        final(map).blocked@.len() == old(map).blocked@.len(),
        exit is None ==> plain_tiles(final(map).tiles@),
        exit_placed(
            old(map).tiles@,
            old(map).width as int,
            old(map).height as int,
            start_idx as int,
            final(map).tiles@,
            exit is Some,
        ),
        match exit {
            Some(e) => {
                &&& playable(final(map), start_idx as int, e as int)
                &&& is_farthest_floor(
                    terrain_of(old(map).tiles@, old(map).width as int, old(map).height as int),
                    old(map).tiles@,
                    start_idx as int,
                    e as int,
                )
                &&& final(map).tiles@ == pruned(
                    old(map).tiles@,
                    old(map).width as int,
                    old(map).height as int,
                    start_idx as int,
                ).update(e as int, TileType::DownStairs)
            },
            None => {
                &&& final(map).tiles@ == pruned(
                    old(map).tiles@,
                    old(map).width as int,
                    old(map).height as int,
                    start_idx as int,
                )
                &&& forall|j: int|
                    0 <= j < old(map).tiles@.len() && j != start_idx ==> !(#[trigger] old(map).tiles@[j]
                        == TileType::Floor && terrain_of(
                        old(map).tiles@,
                        old(map).width as int,
                        old(map).height as int,
                    ).connected(start_idx as int, j, MAX_COST as int))
            },
        },
{
    let ghost t = terrain_of(map.tiles@, map.width as int, map.height as int);
    let ghost start = start_idx as int;
    let exit: Option<usize> = remove_unreachable_areas_returning_most_distant(map, start_idx);
    let ghost cut = map.tiles@;
    proof {
        assert(cut =~= pruned(old(map).tiles@, old(map).width as int, old(map).height as int, start));
        let p = seq![start];
        assert(t.is_route(p, start, start));
        assert(t.route_cost(p) == 0);
        assert(t.reaches(start, start, 0));
        assert(t.connected(start, start, MAX_COST as int));
    }
    match exit {
        Some(e) => {
            map.tiles[e] = TileType::DownStairs;
            proof {
                assert forall|i: int|
                    0 <= i < map.tiles@.len() && (#[trigger] map.tiles@[i] == TileType::Floor || i
                        == e) implies terrain_of(map.tiles@, map.width as int, map.height as int).connected(
                    start,
                    i,
                    MAX_COST as int,
                ) by {
                    lemma_connected_stays(
                        old(map).tiles@,
                        map.tiles@,
                        map.width as int,
                        map.height as int,
                        start,
                        i,
                    );
                }
            }
        },
        None => {},
    }
    exit
}

/// How many of the first `n` tiles are of kind `kind`.
pub open spec fn count_tiles(tiles: Seq<TileType>, kind: TileType, n: int) -> int
    decreases n,
{
    if n <= 0 {
        0
    } else {
        count_tiles(tiles, kind, n - 1) + if tiles[n - 1] == kind {
            1int
        } else {
            0int
        }
    }
}

/// Writing one tile changes the count by the tile that comes and the
/// tile that goes.
pub proof fn lemma_count_tiles_update(tiles: Seq<TileType>, kind: TileType, i: int, t: TileType, n: int)
    requires
        0 <= i < tiles.len(),
        0 <= n <= tiles.len(),
    ensures
        count_tiles(tiles.update(i, t), kind, n) == count_tiles(tiles, kind, n) + if i < n {
            (if t == kind {
                1int
            } else {
                0int
            }) - (if tiles[i] == kind {
                1int
            } else {
                0int
            })
        } else {
            0int
        },
    decreases n,
{
    if n > 0 {
        lemma_count_tiles_update(tiles, kind, i, t, n - 1);
    }
}

/// Among tiles of one kind there are none of another.
pub proof fn lemma_count_tiles_none(tiles: Seq<TileType>, kind: TileType, n: int)
    requires
        0 <= n <= tiles.len(),
        forall|i: int| 0 <= i < n ==> #[trigger] tiles[i] != kind,
    ensures
        count_tiles(tiles, kind, n) == 0,
    decreases n,
{
    if n > 0 {
        lemma_count_tiles_none(tiles, kind, n - 1);
    }
}

/// The number of floor tiles on the map.
pub fn count_floor(map: &TileMap) -> (count: usize)
    ensures
        count == count_tiles(map.tiles@, TileType::Floor, map.tiles@.len() as int),
{
    let mut count: usize = 0;
    let mut i: usize = 0;
    while i < map.tiles.len()
        invariant
            i <= map.tiles@.len(),
            count <= i,
            count == count_tiles(map.tiles@, TileType::Floor, i as int),
        decreases map.tiles@.len() - i,
    {
        if map.tiles[i] == TileType::Floor {
            count += 1;
        }
        i += 1;
    }
    count
}

/// Where a walker at `(x, y)` stands after one step in `direction`: 1 is
/// left, 2 right, 3 up and anything else down. A step that would leave
/// the columns 2 to `width - 2` or the rows 2 to `height - 2` is not
/// taken.
pub open spec fn staggered(x: int, y: int, direction: int, width: int, height: int) -> (int, int) {
    if direction == 1 {
        (if x > 2 { x - 1 } else { x }, y)
    } else if direction == 2 {
        (if x < width - 2 { x + 1 } else { x }, y)
    } else if direction == 3 {
        (x, if y > 2 { y - 1 } else { y })
    } else {
        (x, if y < height - 2 { y + 1 } else { y })
    }
}

/// A walker's step in one of the four directions leads from `(px, py)`
/// to `(x, y)`.
pub open spec fn one_step(width: int, height: int, px: int, py: int, x: int, y: int) -> bool {
    exists|direction: int| 1 <= direction <= 4 && #[trigger] staggered(px, py, direction, width, height) == (x, y)
}

/// Whether `(x, y)` lies where walkers move: in the columns 2 to
/// `width - 2` and the rows 2 to `height - 2`.
pub open spec fn in_play(width: int, height: int, x: int, y: int) -> bool {
    2 <= x <= width - 2 && 2 <= y <= height - 2
}

/// Moves a walker one step.
pub fn stagger(x: i32, y: i32, direction: i32, width: i32, height: i32) -> (to: (i32, i32))
    requires
        x < i32::MAX,
        y < i32::MAX,
        width > i32::MIN + 1,
        height > i32::MIN + 1,
    ensures
        (to.0 as int, to.1 as int) == staggered(x as int, y as int, direction as int, width as int, height as int),
{
    let mut nx: i32 = x;
    let mut ny: i32 = y;
    if direction == 1 {
        if x > 2 {
            nx = x - 1;
        }
    } else if direction == 2 {
        if x < width - 2 {
            nx = x + 1;
        }
    } else if direction == 3 {
        if y > 2 {
            ny = y - 1;
        }
    } else {
        if y < height - 2 {
            ny = y + 1;
        }
    }
    (nx, ny)
}

/// The first floor tile met when walking left along row `y` from column
/// `x`, the starting cell included.
pub fn find_floor_leftward(map: &TileMap, x: i32, y: i32) -> (found: Option<i32>)
    requires
        map.wf(),
        map.in_bounds(x as int, y as int),
    ensures
        match found {
            Some(fx) => 0 <= fx <= x && map.at(fx as int, y as int) == TileType::Floor && forall|cx: int|
                fx < cx <= x ==> #[trigger] map.at(cx, y as int) != TileType::Floor,
            None => forall|cx: int| 0 <= cx <= x ==> #[trigger] map.at(cx, y as int) != TileType::Floor,
        },
        match found {
            Some(fx) => is_first_floor_leftward(map.tiles@, map.width as int, x as int, y as int, fx as int),
            None => no_floor_leftward(map.tiles@, map.width as int, x as int, y as int),
        },
{
    let mut cx: i32 = x;
    while cx >= 0
        invariant
            map.wf(),
            map.in_bounds(x as int, y as int),
            -1 <= cx <= x,
            forall|k: int| cx < k <= x ==> #[trigger] map.at(k, y as int) != TileType::Floor,
        decreases cx + 1,
    {
        if map.tile(cx, y) == TileType::Floor {
            proof {
                assert forall|k: int| cx < k <= x implies map.tiles@[#[trigger] cell_index(map.width as int, k, y as int)]
                    != TileType::Floor by {
                    assert(map.at(k, y as int) != TileType::Floor);
                }
            }
            return Some(cx);
        }
        cx -= 1;
    }
    proof {
        assert forall|k: int| 0 <= k <= x implies map.tiles@[#[trigger] cell_index(map.width as int, k, y as int)]
            != TileType::Floor by {
            assert(map.at(k, y as int) != TileType::Floor);
        }
    }
    None
}

} // verus!
