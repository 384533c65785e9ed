use crate::components::Position;
use crate::map::{MAP_HEIGHT, MAP_WIDTH, TileMap, TileType};
use crate::map_builder::common::{
    all_joined, apply_horizontal_tunnel, apply_room_to_map, apply_vertical_tunnel, BuildError, corridor_drawn,
    corridors_over, ground, lemma_corridor_added, lemma_corridor_keeps_links, on_corridor, plain_tiles,
};
use crate::map_builder::bsp_dungeon::{lemma_rooms_tile_prefix, rooms_tile};
use crate::map_builder::distance::{lower, upper};
use crate::random::{range, roll_dice};
use crate::rect::Rect;
use rltk::RandomNumberGenerator;
use vstd::prelude::*;

verus! {

/// How many rooms a build tries to place.
pub const MAX_ROOMS: i32 = 30;

/// The smallest width and height of a room.
pub const MIN_SIZE: i32 = 6;

/// One more than the largest width and height of a room.
pub const MAX_SIZE: i32 = 10;

/// Builds a level of rectangular rooms joined by corridors.
pub struct SimpleMapBuilder {
    pub map: TileMap,
    pub starting_position: Position,
    pub depth: i32,
    pub rooms: Vec<Rect>,
}

/// A room of a size that is drawn, with its walls on the map.
pub open spec fn room_fits(room: Rect) -> bool {
    &&& 0 <= room.x1
    &&& room.x1 + MIN_SIZE <= room.x2 < room.x1 + MAX_SIZE
    &&& room.x2 + 1 < MAP_WIDTH
    &&& 0 <= room.y1
    &&& room.y1 + MIN_SIZE <= room.y2 < room.y1 + MAX_SIZE
    &&& room.y2 + 1 < MAP_HEIGHT
}

/// All rooms fit on the map and no two of them touch or overlap.
pub open spec fn rooms_apart(rooms: Seq<Rect>) -> bool {
    &&& forall|k: int| 0 <= k < rooms.len() ==> room_fits(#[trigger] rooms[k])
    &&& forall|j: int, k: int|
        #![trigger rooms[j], rooms[k]]
        0 <= j < k < rooms.len() ==> !rooms[j].overlaps(&rooms[k], 0)
}

/// The index of the middle of `room` on a map of the standard width.
pub open spec fn center_index(room: Rect) -> int {
    crate::map::cell_index(MAP_WIDTH as int, room.center_point().0, room.center_point().1)
}

/// The middle of every room is floor.
pub open spec fn centers_open(tiles: Seq<TileType>, rooms: Seq<Rect>) -> bool {
    forall|k: int| 0 <= k < rooms.len() ==> tiles[center_index(#[trigger] rooms[k])] == TileType::Floor
}

/// The cell `(x, y)` lies inside the walls of the room.
pub open spec fn in_room(room: Rect, x: int, y: int) -> bool {
    room.x1 < x <= room.x2 && room.y1 < y <= room.y2
}

/// The cell `(x, y)` lies in one of the rooms after room `i`.
pub open spec fn in_later_room(rooms: Seq<Rect>, i: int, x: int, y: int) -> bool {
    exists|k: int| i < k < rooms.len() && in_room(#[trigger] rooms[k], x, y)
}

/// Cell `j`, if it lies in room `k`, is floor.
pub open spec fn room_cell_carved(map: &TileMap, rooms: Seq<Rect>, k: int, j: int) -> bool {
    in_room(rooms[k], map.x_of(j), map.y_of(j)) ==> map.tiles@[j] == TileType::Floor
}

/// Every cell inside the walls of every room is floor.
pub open spec fn rooms_carved(map: &TileMap, rooms: Seq<Rect>) -> bool {
    forall|k: int, j: int|
        0 <= k < rooms.len() && 0 <= j < map.tiles@.len() ==> #[trigger] room_cell_carved(map, rooms, k, j)
}

/// Every floor tile lies in a room.
pub open spec fn floor_in_rooms(map: &TileMap, rooms: Seq<Rect>) -> bool {
    forall|j: int|
        0 <= j < map.tiles@.len() && #[trigger] map.tiles@[j] == TileType::Floor ==> in_later_room(
            rooms,
            -1,
            map.x_of(j),
            map.y_of(j),
        )
}

/// Cell `j`, if it lies in room `k`, can be reached from `start`.
pub open spec fn room_cell_linked(map: &TileMap, rooms: Seq<Rect>, k: int, j: int, start: int) -> bool {
    in_room(rooms[k], map.x_of(j), map.y_of(j)) ==> ground(map).linked(start, j)
}

/// Every cell of the rooms up to room `upto` can be reached from `start`.
pub open spec fn rooms_linked(map: &TileMap, rooms: Seq<Rect>, upto: int, start: int) -> bool {
    forall|k: int, j: int|
        0 <= k <= upto && k < rooms.len() && 0 <= j < map.tiles@.len() ==> #[trigger] room_cell_linked(
            map,
            rooms,
            k,
            j,
            start,
        )
}

/// Floor tile `j` can be reached from `start` or lies in a room after
/// room `i`.
pub open spec fn floor_cell_settled(map: &TileMap, rooms: Seq<Rect>, i: int, j: int, start: int) -> bool {
    map.tiles@[j] == TileType::Floor ==> ground(map).linked(start, j) || in_later_room(
        rooms,
        i,
        map.x_of(j),
        map.y_of(j),
    )
}

/// Every floor tile can be reached from `start` or lies in a room after
/// room `i`.
pub open spec fn floor_linked_or_later(map: &TileMap, rooms: Seq<Rect>, i: int, start: int) -> bool {
    forall|j: int| 0 <= j < map.tiles@.len() ==> #[trigger] floor_cell_settled(map, rooms, i, j, start)
}

/// `after` is `before` with a tunnel along row `y` between the columns
/// `xa` and `xb`.
pub open spec fn row_tunnelled(before: &TileMap, after: &TileMap, xa: int, xb: int, y: int) -> bool {
    corridor_drawn(before, after, lower(xa, xb), y, upper(xa, xb), y)
}

/// `after` is `before` with a tunnel along column `x` between the rows
/// `ya` and `yb`.
pub open spec fn column_tunnelled(before: &TileMap, after: &TileMap, ya: int, yb: int, x: int) -> bool {
    corridor_drawn(before, after, x, lower(ya, yb), x, upper(ya, yb))
}

/// The two tunnels between the middles of room `i` and the room before
/// link room `i`, and themselves, to what the rooms before are linked
/// to.
proof fn lemma_tunnels_join(
    before: &TileMap,
    mid: &TileMap,
    after: &TileMap,
    rooms: Seq<Rect>,
    i: int,
    start: int,
    row_first: bool,
)
    requires
        before.wf(),
        before.width == MAP_WIDTH,
        before.height == MAP_HEIGHT,
        plain_tiles(before.tiles@),
        1 <= i < rooms.len(),
        rooms_apart(rooms),
        rooms_carved(before, rooms),
        rooms_linked(before, rooms, i - 1, start),
        floor_linked_or_later(before, rooms, i - 1, start),
        ({
            let a = rooms[i - 1].center_point();
            let b = rooms[i].center_point();
            if row_first {
                row_tunnelled(before, mid, a.0, b.0, a.1) && column_tunnelled(mid, after, a.1, b.1, b.0)
            } else {
                column_tunnelled(before, mid, a.1, b.1, a.0) && row_tunnelled(mid, after, a.0, b.0, b.1)
            }
        }),
    ensures
        plain_tiles(after.tiles@),
        rooms_carved(after, rooms),
        rooms_linked(after, rooms, i, start),
        floor_linked_or_later(after, rooms, i, start),
{
    let w = before.width as int;
    let h = before.height as int;
    let t = ground(after);
    let prev = rooms[i - 1];
    let room = rooms[i];
    assert(room_fits(prev));
    assert(room_fits(room));
    let a = prev.center_point();
    let b = room.center_point();
    let (ax, ay) = a;
    let (bx, by) = b;
    before.lemma_idx_bounds(ax, ay);
    before.lemma_idx_bounds(bx, by);
    let ia = before.idx(ax, ay);
    let ib = before.idx(bx, by);
    assert(room_cell_linked(before, rooms, i - 1, ia, start));
    assert(room_cell_carved(before, rooms, i - 1, ia));
    assert(room_cell_carved(before, rooms, i, ib));
    // Floor stays floor through both tunnels.
    assert forall|j: int| 0 <= j < mid.tiles@.len() implies (#[trigger] mid.tiles@[j] == TileType::Void
        || mid.tiles@[j] == TileType::Wall || mid.tiles@[j] == TileType::Floor) && (before.tiles@[j]
        == TileType::Floor ==> mid.tiles@[j] == TileType::Floor) by {
        assert(before.tiles@[j] == TileType::Void || before.tiles@[j] == TileType::Wall || before.tiles@[j]
            == TileType::Floor);
    }
    assert forall|j: int| 0 <= j < after.tiles@.len() implies (#[trigger] after.tiles@[j] == TileType::Void
        || after.tiles@[j] == TileType::Wall || after.tiles@[j] == TileType::Floor) && (mid.tiles@[j]
        == TileType::Floor ==> after.tiles@[j] == TileType::Floor) by {
        assert(mid.tiles@[j] == TileType::Void || mid.tiles@[j] == TileType::Wall || mid.tiles@[j]
            == TileType::Floor);
    }
    assert forall|k: int, j: int|
        0 <= k < rooms.len() && 0 <= j < after.tiles@.len() implies #[trigger] room_cell_carved(after, rooms, k, j) by {
        assert(room_cell_carved(before, rooms, k, j));
        assert(before.tiles@[j] == TileType::Floor ==> mid.tiles@[j] == TileType::Floor);
    }
    // The start of the elbow is linked, and the elbow is open.
    lemma_two_tunnels_keep_links(before, mid, after, rooms, i, row_first, start, ia);
    assert(t.open_at(ax, ay)) by {
        assert(after.tiles@[ia] == TileType::Floor);
    }
    assert(t.open_at(bx, by)) by {
        assert(mid.tiles@[ib] == TileType::Floor);
        assert(after.tiles@[ib] == TileType::Floor);
    }
    if row_first {
        assert forall|x: int| lower(ax, bx) < x <= upper(ax, bx) implies #[trigger] t.open_at(x, ay) by {
            before.lemma_idx_bounds(x, ay);
            let j = before.idx(x, ay);
            assert(on_corridor(lower(ax, bx), ay, upper(ax, bx), ay, x, ay));
            assert(mid.tiles@[j] == TileType::Floor);
            assert(after.tiles@[j] == TileType::Floor);
        }
        assert forall|y: int| lower(ay, by) < y <= upper(ay, by) implies #[trigger] t.open_at(bx, y) by {
            before.lemma_idx_bounds(bx, y);
            let j = before.idx(bx, y);
            assert(on_corridor(bx, lower(ay, by), bx, upper(ay, by), bx, y));
            assert(after.tiles@[j] == TileType::Floor);
        }
        t.lemma_linked_elbow(start, ax, ay, bx, by);
    } else {
        assert forall|y: int| lower(ay, by) < y <= upper(ay, by) implies #[trigger] t.open_at(ax, y) by {
            before.lemma_idx_bounds(ax, y);
            let j = before.idx(ax, y);
            assert(on_corridor(ax, lower(ay, by), ax, upper(ay, by), ax, y));
            assert(mid.tiles@[j] == TileType::Floor);
            assert(after.tiles@[j] == TileType::Floor);
        }
        assert forall|x: int| lower(ax, bx) < x <= upper(ax, bx) implies #[trigger] t.open_at(x, by) by {
            before.lemma_idx_bounds(x, by);
            let j = before.idx(x, by);
            assert(on_corridor(lower(ax, bx), by, upper(ax, bx), by, x, by));
            assert(after.tiles@[j] == TileType::Floor);
        }
        t.lemma_linked_elbow_turned(start, ax, ay, bx, by);
    }
    // Room `i` is one block of open cells around its middle.
    assert forall|x: int, y: int| room.x1 + 1 <= x <= room.x2 && room.y1 + 1 <= y <= room.y2 implies #[trigger] t.open_at(
        x,
        y,
    ) by {
        before.lemma_idx_bounds(x, y);
        assert(room_cell_carved(after, rooms, i, before.idx(x, y)));
    }
    t.lemma_linked_block(start, room.x1 + 1, room.x2 as int, room.y1 + 1, room.y2 as int, bx, by);
    assert forall|k: int, j: int|
        0 <= k <= i && k < rooms.len() && 0 <= j < after.tiles@.len() implies #[trigger] room_cell_linked(
        after,
        rooms,
        k,
        j,
        start,
    ) by {
        if in_room(rooms[k], after.x_of(j), after.y_of(j)) {
            before.lemma_cell_of_index(j);
            if k < i {
                assert(room_cell_linked(before, rooms, k, j, start));
                lemma_two_tunnels_keep_links(before, mid, after, rooms, i, row_first, start, j);
            } else {
                assert(t.linked(start, crate::map::cell_index(w, before.x_of(j), before.y_of(j))));
            }
        }
    }
    assert forall|j: int| 0 <= j < after.tiles@.len() implies #[trigger] floor_cell_settled(
        after,
        rooms,
        i,
        j,
        start,
    ) by {
        if after.tiles@[j] == TileType::Floor {
            before.lemma_cell_of_index(j);
            let x = before.x_of(j);
            let y = before.y_of(j);
            if before.tiles@[j] == TileType::Floor {
                assert(floor_cell_settled(before, rooms, i - 1, j, start));
                if ground(before).linked(start, j) {
                    lemma_two_tunnels_keep_links(before, mid, after, rooms, i, row_first, start, j);
                } else {
                    let k = choose|k: int| i - 1 < k < rooms.len() && in_room(#[trigger] rooms[k], x, y);
                    if k == i {
                        assert(room_cell_linked(after, rooms, k, j, start));
                    } else {
                        assert(in_room(rooms[k], x, y));
                    }
                }
            } else {
                // The tile was carved by one of the two tunnels.
                assert(mid.tiles@[j] == TileType::Floor || after.tiles@[j] != mid.tiles@[j]);
                if row_first {
                    if mid.tiles@[j] == TileType::Floor {
                        assert(on_corridor(lower(ax, bx), ay, upper(ax, bx), ay, x, y));
                        assert(t.linked(start, crate::map::cell_index(w, x, ay)));
                    } else {
                        assert(on_corridor(bx, lower(ay, by), bx, upper(ay, by), x, y));
                        assert(t.linked(start, crate::map::cell_index(w, bx, y)));
                    }
                } else {
                    if mid.tiles@[j] == TileType::Floor {
                        assert(on_corridor(ax, lower(ay, by), ax, upper(ay, by), x, y));
                        assert(t.linked(start, crate::map::cell_index(w, ax, y)));
                    } else {
                        assert(on_corridor(lower(ax, bx), by, upper(ax, bx), by, x, y));
                        assert(t.linked(start, crate::map::cell_index(w, x, by)));
                    }
                }
            }
        }
    }
}

/// What is linked before the two tunnels is linked after them.
proof fn lemma_two_tunnels_keep_links(
    before: &TileMap,
    mid: &TileMap,
    after: &TileMap,
    rooms: Seq<Rect>,
    i: int,
    row_first: bool,
    from: int,
    to: int,
)
    requires
        plain_tiles(before.tiles@),
        1 <= i < rooms.len(),
        ({
            let a = rooms[i - 1].center_point();
            let b = rooms[i].center_point();
            if row_first {
                row_tunnelled(before, mid, a.0, b.0, a.1) && column_tunnelled(mid, after, a.1, b.1, b.0)
            } else {
                column_tunnelled(before, mid, a.1, b.1, a.0) && row_tunnelled(mid, after, a.0, b.0, b.1)
            }
        }),
        ground(before).linked(from, to),
    ensures
        ground(after).linked(from, to),
{
    let a = rooms[i - 1].center_point();
    let b = rooms[i].center_point();
    assert forall|j: int| 0 <= j < mid.tiles@.len() implies (#[trigger] mid.tiles@[j] == TileType::Void
        || mid.tiles@[j] == TileType::Wall || mid.tiles@[j] == TileType::Floor) by {
        assert(before.tiles@[j] == TileType::Void || before.tiles@[j] == TileType::Wall || before.tiles@[j]
            == TileType::Floor);
    }
    if row_first {
        lemma_corridor_keeps_links(before, mid, lower(a.0, b.0), a.1, upper(a.0, b.0), a.1, from, to);
        lemma_corridor_keeps_links(mid, after, b.0, lower(a.1, b.1), b.0, upper(a.1, b.1), from, to);
    } else {
        lemma_corridor_keeps_links(before, mid, a.0, lower(a.1, b.1), a.0, upper(a.1, b.1), from, to);
        lemma_corridor_keeps_links(mid, after, lower(a.0, b.0), b.1, upper(a.0, b.0), b.1, from, to);
    }
}

/// Whether `room` touches or overlaps one of `rooms`.
pub fn intersects_any(rooms: &Vec<Rect>, room: &Rect) -> (r: bool)
    ensures
        r == exists|k: int| 0 <= k < rooms@.len() && room.overlaps(&#[trigger] rooms@[k], 0),
{
    let mut k: usize = 0;
    while k < rooms.len()
        invariant
            k <= rooms@.len(),
            forall|j: int| 0 <= j < k ==> !room.overlaps(&#[trigger] rooms@[j], 0),
        decreases rooms@.len() - k,
    {
        if room.intersect(&rooms[k]) {
            return true;
        }
        k += 1;
    }
    false
}

/// The map shows the rooms, drawn one after the other on a void map.
pub open spec fn rooms_shown(map: &TileMap, rooms: Seq<Rect>) -> bool {
    forall|i: int|
        0 <= i < map.tiles@.len() ==> #[trigger] map.tiles@[i] == rooms_tile(
            rooms,
            rooms.len() as int,
            map.x_of(i),
            map.y_of(i),
        )
}

/// One more room drawn over a map that shows rooms leaves a map that
/// shows them all.
pub proof fn lemma_room_shown(before: &TileMap, after: &TileMap, placed: Seq<Rect>, room: Rect)
    requires
        after.same_frame(before),
        rooms_shown(before, placed),
        forall|i: int|
            0 <= i < after.tiles@.len() ==> #[trigger] after.tiles@[i] == crate::map_builder::common::room_tile(
                room,
                before.x_of(i),
                before.y_of(i),
                before.tiles@[i],
            ),
    ensures
        rooms_shown(after, placed.push(room)),
{
    let rooms = placed.push(room);
    assert forall|i: int| 0 <= i < after.tiles@.len() implies #[trigger] after.tiles@[i] == rooms_tile(
        rooms,
        rooms.len() as int,
        after.x_of(i),
        after.y_of(i),
    ) by {
        lemma_rooms_tile_prefix(rooms, placed, placed.len() as int, before.x_of(i), before.y_of(i));
        assert(before.tiles@[i] == rooms_tile(placed, placed.len() as int, before.x_of(i), before.y_of(i)));
    }
}

/// The tunnel along row `y` between the columns `x1` and `x2`, as a
/// corridor from its lower to its higher end.
pub open spec fn row_tunnel(x1: int, x2: int, y: int) -> (int, int, int, int) {
    (lower(x1, x2), y, upper(x1, x2), y)
}

/// The tunnel along column `x` between the rows `y1` and `y2`, as a
/// corridor from its lower to its higher end.
pub open spec fn column_tunnel(y1: int, y2: int, x: int) -> (int, int, int, int) {
    (x, lower(y1, y2), x, upper(y1, y2))
}

/// The tunnels `2k` and `2k + 1` join the middle of room `k` to the
/// middle of room `k + 1` with one bend: along the row of the one and
/// then the column of the other, or along the column of the one and then
/// the row of the other.
pub open spec fn tunnel_pair(rooms: Seq<Rect>, ends: Seq<(int, int, int, int)>, k: int) -> bool {
    let from = rooms[k].center_point();
    let to = rooms[k + 1].center_point();
    ||| ends[2 * k] == row_tunnel(from.0, to.0, from.1) && ends[2 * k + 1] == column_tunnel(from.1, to.1, to.0)
    ||| ends[2 * k] == column_tunnel(from.1, to.1, from.0) && ends[2 * k + 1] == row_tunnel(from.0, to.0, to.1)
}

/// Two tunnels lead from each room to the next, from middle to middle.
pub open spec fn tunnels_between(rooms: Seq<Rect>, ends: Seq<(int, int, int, int)>) -> bool {
    &&& ends.len() == 2 * (rooms.len() - 1)
    &&& forall|k: int| 0 <= k < rooms.len() - 1 ==> #[trigger] tunnel_pair(rooms, ends, k)
}

/// Two more tunnels, which join room `k` to room `k + 1`, drawn over a
/// map on which the tunnels for the rooms before were drawn, leave what
/// all the tunnels leave, drawn one after the other.
pub proof fn lemma_pair_added(
    first: Seq<TileType>,
    before: &TileMap,
    mid: &TileMap,
    after: &TileMap,
    rooms: Seq<Rect>,
    ends: Seq<(int, int, int, int)>,
    k: int,
    a: (int, int, int, int),
    b: (int, int, int, int),
) -> (longer: Seq<(int, int, int, int)>)
    requires
        0 <= k < rooms.len() - 1,
        ends.len() == 2 * k,
        forall|m: int| 0 <= m < k ==> #[trigger] tunnel_pair(rooms, ends, m),
        before.tiles@ == corridors_over(first, before.width as int, ends, ends.len() as int),
        corridor_drawn(before, mid, a.0, a.1, a.2, a.3),
        corridor_drawn(mid, after, b.0, b.1, b.2, b.3),
        ({
            let from = rooms[k].center_point();
            let to = rooms[k + 1].center_point();
            ||| a == row_tunnel(from.0, to.0, from.1) && b == column_tunnel(from.1, to.1, to.0)
            ||| a == column_tunnel(from.1, to.1, from.0) && b == row_tunnel(from.0, to.0, to.1)
        }),
    ensures
        longer == ends.push(a).push(b),
        longer.len() == 2 * (k + 1),
        forall|m: int| 0 <= m < k + 1 ==> #[trigger] tunnel_pair(rooms, longer, m),
        after.tiles@ == corridors_over(first, after.width as int, longer, longer.len() as int),
{
    let one = ends.push(a);
    let longer = one.push(b);
    lemma_corridor_added(first, before, mid, ends, a);
    lemma_corridor_added(first, mid, after, one, b);
    assert forall|m: int| 0 <= m < k + 1 implies #[trigger] tunnel_pair(rooms, longer, m) by {
        if m < k {
            assert(tunnel_pair(rooms, ends, m));
            assert(longer[2 * m] == ends[2 * m] && longer[2 * m + 1] == ends[2 * m + 1]);
        } else {
            assert(longer[2 * k] == a && longer[2 * k + 1] == b);
        }
    }
    longer
}

impl SimpleMapBuilder {
    /// The map has the standard size.
    pub open spec fn wf(&self) -> bool {
        &&& self.map.wf()
        &&& self.map.width == MAP_WIDTH
        &&& self.map.height == MAP_HEIGHT
    }

    /// Nothing has been built yet: the map is void and there are no
    /// rooms.
    pub open spec fn unbuilt(&self) -> bool {
        &&& self.wf()
        &&& self.rooms@.len() == 0
        &&& forall|i: int| 0 <= i < self.map.tiles@.len() ==> #[trigger] self.map.tiles@[i] == TileType::Void
    }

    /// The index of the starting position.
    pub open spec fn start_index(&self) -> int {
        self.map.idx(self.starting_position.x as int, self.starting_position.y as int)
    }

    /// The level is done: there are at least two rooms, which lie apart;
    /// the player starts in the middle of the first room, on floor; the
    /// only stairway down is in the middle of the last; no placeholder is
    /// left; and a route leads from the start to every floor tile and to
    /// the stairs.
    pub open spec fn finished(&self) -> bool {
        &&& self.wf()
        &&& 2 <= self.rooms@.len() <= MAX_ROOMS
        &&& rooms_apart(self.rooms@)
        &&& (self.starting_position.x as int, self.starting_position.y as int) == self.rooms@[0].center_point()
        &&& forall|i: int|
            0 <= i < self.map.tiles@.len() ==> (#[trigger] self.map.tiles@[i] == TileType::DownStairs <==> i
                == center_index(self.rooms@.last()))
        &&& forall|i: int| 0 <= i < self.map.tiles@.len() ==> #[trigger] self.map.tiles@[i] != TileType::Placeholder
        &&& forall|k: int|
            0 <= k < self.rooms@.len() - 1 ==> self.map.tiles@[center_index(#[trigger] self.rooms@[k])]
                == TileType::Floor
        &&& all_joined(&self.map, self.start_index())
    }

    pub fn new(depth: i32) -> (builder: SimpleMapBuilder)
        ensures
            builder.unbuilt(),
            builder.depth == depth,
            builder.map.depth == depth,
            builder.starting_position == (Position { x: 0, y: 0 }),
    {
        SimpleMapBuilder {
            map: TileMap::new(MAP_WIDTH as i32, MAP_HEIGHT as i32, depth, None),
            starting_position: Position { x: 0, y: 0 },
            depth,
            rooms: Vec::new(),
        }
    }

    /// An independent copy of the map.
    pub fn get_map(&self) -> (map: TileMap)
        ensures
            map.same_shape(&self.map),
            map.tiles@ == self.map.tiles@,
            map.revealed_tiles@ == self.map.revealed_tiles@,
            map.visible_tiles@ == self.map.visible_tiles@,
            map.blocked@ == self.map.blocked@,
    {
        self.map.duplicate()
    }

    pub fn get_starting_position(&self) -> (position: Position)
        ensures
            position == self.starting_position,
    {
        self.starting_position
    }

    /// Where the level comes from: `roomed` shows the rooms, which lie
    /// apart, drawn on a void map; the tunnels `ends`
    /// lead from each room to the next; and the map shows `roomed` with
    /// the tunnels drawn one after the other, and with the stairs in the
    /// middle of the last room where there are two rooms or more.
    pub open spec fn built_from(&self, roomed: &TileMap, ends: Seq<(int, int, int, int)>) -> bool {
        let over = corridors_over(roomed.tiles@, MAP_WIDTH as int, ends, ends.len() as int);
        &&& roomed.wf()
        &&& roomed.width == MAP_WIDTH
        &&& roomed.height == MAP_HEIGHT
        &&& rooms_apart(self.rooms@)
        &&& rooms_shown(roomed, self.rooms@)
        &&& tunnels_between(self.rooms@, ends)
        &&& self.map.tiles@ == (if self.rooms@.len() >= 2 {
            over.update(center_index(self.rooms@.last()), TileType::DownStairs)
        } else {
            over
        })
    }

    /// Builds the level of rooms and corridors. Fails with `NoExit` where
    /// only one room could be placed: the stairs would lie on the start.
    pub fn build(&mut self, rng: &mut RandomNumberGenerator) -> (r: Result<(), BuildError>)
        requires
            old(self).unbuilt(),
        ensures
            final(self).wf(),
            final(self).map.same_shape(&old(self).map),
            final(self).depth == old(self).depth,
            1 <= final(self).rooms@.len() <= MAX_ROOMS,
            r is Ok <==> final(self).rooms@.len() >= 2,
            r is Ok ==> final(self).finished(),
            r is Err ==> r == Err::<(), BuildError>(BuildError::NoExit) && rooms_apart(final(self).rooms@)
                && rooms_carved(&final(self).map, final(self).rooms@) && plain_tiles(final(self).map.tiles@)
                && all_joined(&final(self).map, center_index(final(self).rooms@[0])),
            (final(self).starting_position.x as int, final(self).starting_position.y as int) == final(self).rooms@[0].center_point(),
            exists|roomed: TileMap, ends: Seq<(int, int, int, int)>| #[trigger] final(self).built_from(&roomed, ends),
    {
        self.rooms_and_corridors(rng)
    }

    /// The rooms in which to spawn: all but the first, where the player
    /// starts.
    pub fn spawn(&self) -> (rooms: Vec<Rect>)
        ensures
            rooms@ == (if self.rooms@.len() == 0 {
                self.rooms@
            } else {
                self.rooms@.subrange(1, self.rooms@.len() as int)
            }),
    {
        let mut rooms: Vec<Rect> = Vec::new();
        let mut k: usize = 1;
        while k < self.rooms.len()
            invariant
                1 <= k,
                k <= self.rooms@.len() || self.rooms@.len() == 0,
                self.rooms@.len() > 0 ==> rooms@ == self.rooms@.subrange(1, k as int),
                self.rooms@.len() == 0 ==> rooms@.len() == 0,
            decreases self.rooms@.len() - k,
        {
            rooms.push(self.rooms[k]);
            proof {
                assert(rooms@ =~= self.rooms@.subrange(1, k + 1));
            }
            k += 1;
        }
        proof {
            if self.rooms@.len() == 0 {
                assert(rooms@ =~= self.rooms@);
            }
        }
        rooms
    }

    /// Tries `MAX_ROOMS` times to place a room of random size at a random
    /// place, keeping those that touch no room placed before.
    pub fn place_rooms(&mut self, rng: &mut RandomNumberGenerator)
        requires
            old(self).unbuilt(),
        ensures
            final(self).wf(),
            final(self).map.same_frame(&old(self).map),
            final(self).depth == old(self).depth,
            final(self).starting_position == old(self).starting_position,
            1 <= final(self).rooms@.len() <= MAX_ROOMS,
            rooms_apart(final(self).rooms@),
            plain_tiles(final(self).map.tiles@),
            centers_open(final(self).map.tiles@, final(self).rooms@),
            rooms_carved(&final(self).map, final(self).rooms@),
            floor_in_rooms(&final(self).map, final(self).rooms@),
            rooms_shown(&final(self).map, final(self).rooms@),
    {
        let mut tries: i32 = 0;
        while tries < MAX_ROOMS
            invariant
                self.wf(),
                old(self).wf(),
                self.map.same_frame(&old(self).map),
                self.depth == old(self).depth,
                self.starting_position == old(self).starting_position,
                0 <= tries <= MAX_ROOMS,
                self.rooms@.len() <= tries,
                tries >= 1 ==> self.rooms@.len() >= 1,
                rooms_apart(self.rooms@),
                plain_tiles(self.map.tiles@),
                centers_open(self.map.tiles@, self.rooms@),
                rooms_carved(&self.map, self.rooms@),
                floor_in_rooms(&self.map, self.rooms@),
                rooms_shown(&self.map, self.rooms@),
            decreases MAX_ROOMS - tries,
        {
            let w: i32 = range(rng, MIN_SIZE, MAX_SIZE);
            let h: i32 = range(rng, MIN_SIZE, MAX_SIZE);
            let x: i32 = roll_dice(rng, 1, MAP_WIDTH as i32 - w - 1) - 1;
            let y: i32 = roll_dice(rng, 1, MAP_HEIGHT as i32 - h - 1) - 1;
            let new_room: Rect = Rect::new(x, y, w, h);
            if !intersects_any(&self.rooms, &new_room) {
                let ghost before = self.map.tiles@;
                let ghost was = self.map;
                let ghost placed = self.rooms@;
                apply_room_to_map(&mut self.map, &new_room);
                self.rooms.push(new_room);
                proof {
                    lemma_room_shown(&was, &self.map, placed, new_room);
                    assert forall|k: int, j: int|
                        0 <= k < self.rooms@.len() && 0 <= j < self.map.tiles@.len() implies #[trigger] room_cell_carved(
                        &self.map,
                        self.rooms@,
                        k,
                        j,
                    ) by {
                        if k < placed.len() {
                            assert(self.rooms@[k] == placed[k]);
                            assert(room_cell_carved(&was, placed, k, j));
                            assert(!new_room.overlaps(&placed[k], 0));
                            assert(room_fits(placed[k]));
                        }
                    }
                    assert forall|j: int|
                        0 <= j < self.map.tiles@.len() && #[trigger] self.map.tiles@[j]
                            == TileType::Floor implies in_later_room(
                        self.rooms@,
                        -1,
                        self.map.x_of(j),
                        self.map.y_of(j),
                    ) by {
                        if before[j] == TileType::Floor && in_later_room(placed, -1, was.x_of(j), was.y_of(j)) {
                            let k = choose|k: int|
                                -1 < k < placed.len() && in_room(#[trigger] placed[k], was.x_of(j), was.y_of(j));
                            assert(self.rooms@[k] == placed[k]);
                            assert(in_room(self.rooms@[k], self.map.x_of(j), self.map.y_of(j)));
                        } else {
                            assert(in_room(self.rooms@[placed.len() as int], self.map.x_of(j), self.map.y_of(j)));
                        }
                    }
                    let c = new_room.center_point();
                    self.map.lemma_idx_bounds(c.0, c.1);
                    assert forall|k: int| 0 <= k < self.rooms@.len() implies self.map.tiles@[center_index(
                        #[trigger] self.rooms@[k],
                    )] == TileType::Floor by {
                        let room = self.rooms@[k];
                        let rc = room.center_point();
                        self.map.lemma_idx_bounds(rc.0, rc.1);
                        if k < placed.len() {
                            assert(room == placed[k]);
                            assert(!new_room.overlaps(&placed[k], 0));
                            assert(before[center_index(room)] == TileType::Floor);
                        }
                    }
                    assert forall|j: int, k: int|
                        #![trigger self.rooms@[j], self.rooms@[k]]
                        0 <= j < k < self.rooms@.len() implies !self.rooms@[j].overlaps(&self.rooms@[k], 0) by {
                        if k < placed.len() {
                            assert(self.rooms@[j] == placed[j] && self.rooms@[k] == placed[k]);
                        } else {
                            assert(self.rooms@[j] == placed[j]);
                            assert(!new_room.overlaps(&placed[j], 0));
                        }
                    }
                }
            }
            tries += 1;
        }
    }

    /// Joins each room to the one placed before it by a corridor with one
    /// bend, the bend at either end as a coin decides.
    pub fn dig_tunnels(&mut self, rng: &mut RandomNumberGenerator)
        requires
            old(self).wf(),
            old(self).rooms@.len() >= 1,
            rooms_apart(old(self).rooms@),
            plain_tiles(old(self).map.tiles@),
            rooms_carved(&old(self).map, old(self).rooms@),
            floor_in_rooms(&old(self).map, old(self).rooms@),
        ensures
            final(self).wf(),
            final(self).map.same_frame(&old(self).map),
            final(self).depth == old(self).depth,
            final(self).starting_position == old(self).starting_position,
            final(self).rooms@ == old(self).rooms@,
            plain_tiles(final(self).map.tiles@),
            rooms_carved(&final(self).map, final(self).rooms@),
            all_joined(&final(self).map, center_index(final(self).rooms@[0])),
            exists|ends: Seq<(int, int, int, int)>| #[trigger]
                tunnels_between(final(self).rooms@, ends) && final(self).map.tiles@ == corridors_over(
                    old(self).map.tiles@,
                    MAP_WIDTH as int,
                    ends,
                    ends.len() as int,
                ),
    {
        let ghost start = center_index(self.rooms@[0]);
        let ghost mut ends: Seq<(int, int, int, int)> = Seq::empty();
        proof {
            self.lemma_first_room_linked();
        }
        let mut i: usize = 1;
        while i < self.rooms.len()
            invariant
                self.wf(),
                old(self).wf(),
                self.map.same_frame(&old(self).map),
                self.depth == old(self).depth,
                self.starting_position == old(self).starting_position,
                self.rooms@ == old(self).rooms@,
                self.rooms@.len() >= 1,
                start == center_index(self.rooms@[0]),
                rooms_apart(self.rooms@),
                plain_tiles(self.map.tiles@),
                rooms_carved(&self.map, self.rooms@),
                rooms_linked(&self.map, self.rooms@, i - 1, start),
                floor_linked_or_later(&self.map, self.rooms@, i - 1, start),
                1 <= i <= self.rooms@.len(),
                ends.len() == 2 * (i - 1),
                forall|k: int| 0 <= k < i - 1 ==> #[trigger] tunnel_pair(self.rooms@, ends, k),
                self.map.tiles@ == corridors_over(old(self).map.tiles@, MAP_WIDTH as int, ends, ends.len() as int),
            decreases self.rooms@.len() - i,
        {
            let room: Rect = self.rooms[i];
            let prev: Rect = self.rooms[i - 1];
            proof {
                assert(room_fits(room));
                assert(room_fits(prev));
            }
            let (new_x, new_y) = room.center();
            let (prev_x, prev_y) = prev.center();
            let ghost before = self.map;
            let row_first: bool = range(rng, 0, 2) == 1;
            if row_first {
                apply_horizontal_tunnel(&mut self.map, prev_x, new_x, prev_y);
                let ghost mid = self.map;
                apply_vertical_tunnel(&mut self.map, prev_y, new_y, new_x);
                proof {
                    lemma_tunnels_join(&before, &mid, &self.map, self.rooms@, i as int, start, true);
                    ends = lemma_pair_added(
                        old(self).map.tiles@,
                        &before,
                        &mid,
                        &self.map,
                        self.rooms@,
                        ends,
                        i as int - 1,
                        row_tunnel(prev_x as int, new_x as int, prev_y as int),
                        column_tunnel(prev_y as int, new_y as int, new_x as int),
                    );
                }
            } else {
                apply_vertical_tunnel(&mut self.map, prev_y, new_y, prev_x);
                let ghost mid = self.map;
                apply_horizontal_tunnel(&mut self.map, prev_x, new_x, new_y);
                proof {
                    lemma_tunnels_join(&before, &mid, &self.map, self.rooms@, i as int, start, false);
                    ends = lemma_pair_added(
                        old(self).map.tiles@,
                        &before,
                        &mid,
                        &self.map,
                        self.rooms@,
                        ends,
                        i as int - 1,
                        column_tunnel(prev_y as int, new_y as int, prev_x as int),
                        row_tunnel(prev_x as int, new_x as int, new_y as int),
                    );
                }
            }
            i += 1;
        }
        proof {
            assert(tunnels_between(self.rooms@, ends));
            assert forall|j: int|
                0 <= j < self.map.tiles@.len() && (#[trigger] self.map.tiles@[j] == TileType::Floor
                    || self.map.tiles@[j] == TileType::DownStairs) implies ground(&self.map).linked(start, j) by {
                assert(floor_cell_settled(&self.map, self.rooms@, i - 1, j, start));
                assert(self.map.tiles@[j] == TileType::Floor);
                if in_later_room(self.rooms@, i - 1, self.map.x_of(j), self.map.y_of(j)) {
                    let k = choose|k: int|
                        i - 1 < k < self.rooms@.len() && in_room(
                            #[trigger] self.rooms@[k],
                            self.map.x_of(j),
                            self.map.y_of(j),
                        );
                }
            }
        }
    }

    /// Before any tunnel is dug, the first room is linked to its own
    /// middle, and whatever floor there is lies in a room.
    proof fn lemma_first_room_linked(&self)
        requires
            self.wf(),
            self.rooms@.len() >= 1,
            rooms_apart(self.rooms@),
            rooms_carved(&self.map, self.rooms@),
            floor_in_rooms(&self.map, self.rooms@),
        ensures
            rooms_linked(&self.map, self.rooms@, 0, center_index(self.rooms@[0])),
            floor_linked_or_later(&self.map, self.rooms@, 0, center_index(self.rooms@[0])),
    {
        let first = self.rooms@[0];
        let start = center_index(first);
        let t = ground(&self.map);
        let w = self.map.width as int;
        assert(room_fits(first));
        let c = first.center_point();
        self.map.lemma_idx_bounds(c.0, c.1);
        t.lemma_linked_here(start);
        assert forall|x: int, y: int|
            first.x1 + 1 <= x <= first.x2 && first.y1 + 1 <= y <= first.y2 implies #[trigger] t.open_at(x, y) by {
            self.map.lemma_idx_bounds(x, y);
            let j = self.map.idx(x, y);
            assert(room_cell_carved(&self.map, self.rooms@, 0, j));
        }
        t.lemma_linked_block(start, first.x1 + 1, first.x2 as int, first.y1 + 1, first.y2 as int, c.0, c.1);
        assert forall|k: int, j: int|
            0 <= k <= 0 && k < self.rooms@.len() && 0 <= j < self.map.tiles@.len() implies #[trigger] room_cell_linked(
            &self.map,
            self.rooms@,
            k,
            j,
            start,
        ) by {
            if in_room(self.rooms@[k], self.map.x_of(j), self.map.y_of(j)) {
                self.map.lemma_cell_of_index(j);
                assert(t.linked(start, crate::map::cell_index(w, self.map.x_of(j), self.map.y_of(j))));
            }
        }
        assert forall|j: int| 0 <= j < self.map.tiles@.len() implies #[trigger] floor_cell_settled(
            &self.map,
            self.rooms@,
            0,
            j,
            start,
        ) by {
            if self.map.tiles@[j] == TileType::Floor {
                let k = choose|k: int|
                    -1 < k < self.rooms@.len() && in_room(
                        #[trigger] self.rooms@[k],
                        self.map.x_of(j),
                        self.map.y_of(j),
                    );
                if k == 0 {
                    assert(room_cell_linked(&self.map, self.rooms@, 0, j, start));
                } else {
                    assert(in_room(self.rooms@[k], self.map.x_of(j), self.map.y_of(j)));
                }
            }
        }
    }

    /// Places the rooms, joins them, and puts the start in the middle of
    /// the first room and the stairs in the middle of the last.
    pub fn rooms_and_corridors(&mut self, rng: &mut RandomNumberGenerator) -> (r: Result<(), BuildError>)
        requires
            old(self).unbuilt(),
        ensures
            final(self).wf(),
            final(self).map.same_shape(&old(self).map),
            final(self).depth == old(self).depth,
            1 <= final(self).rooms@.len() <= MAX_ROOMS,
            r is Ok <==> final(self).rooms@.len() >= 2,
            r is Ok ==> final(self).finished(),
            r is Err ==> r == Err::<(), BuildError>(BuildError::NoExit) && rooms_apart(final(self).rooms@)
                && rooms_carved(&final(self).map, final(self).rooms@) && plain_tiles(final(self).map.tiles@)
                && all_joined(&final(self).map, center_index(final(self).rooms@[0])),
            (final(self).starting_position.x as int, final(self).starting_position.y as int) == final(self).rooms@[0].center_point(),
            exists|roomed: TileMap, ends: Seq<(int, int, int, int)>| #[trigger] final(self).built_from(&roomed, ends),
    {
        self.place_rooms(rng);
        let ghost roomed = self.map;
        self.dig_tunnels(rng);
        let ghost over = self.map.tiles@;
        let r = self.place_ends();
        proof {
            let ends = choose|ends: Seq<(int, int, int, int)>| #[trigger]
                tunnels_between(self.rooms@, ends) && over == corridors_over(
                    roomed.tiles@,
                    MAP_WIDTH as int,
                    ends,
                    ends.len() as int,
                );
            assert(self.built_from(&roomed, ends));
        }
        r
    }

    /// Puts the start in the middle of the first room and the stairs in
    /// the middle of the last. Fails with `NoExit`, and puts down no
    /// stairs, where there is one room only: the stairs would lie on the
    /// start.
    pub fn place_ends(&mut self) -> (r: Result<(), BuildError>)
        requires
            old(self).wf(),
            1 <= old(self).rooms@.len() <= MAX_ROOMS,
            rooms_apart(old(self).rooms@),
            plain_tiles(old(self).map.tiles@),
            rooms_carved(&old(self).map, old(self).rooms@),
            all_joined(&old(self).map, center_index(old(self).rooms@[0])),
        ensures
            final(self).map.same_frame(&old(self).map),
            final(self).depth == old(self).depth,
            final(self).rooms@ == old(self).rooms@,
            (final(self).starting_position.x as int, final(self).starting_position.y as int) == old(self).rooms@[0].center_point(),
            r is Ok <==> old(self).rooms@.len() >= 2,
            r is Ok ==> final(self).finished() && final(self).map.tiles@ == old(self).map.tiles@.update(
                center_index(old(self).rooms@.last()),
                TileType::DownStairs,
            ),
            r is Err ==> r == Err::<(), BuildError>(BuildError::NoExit) && final(self).map == old(self).map,
    {
        let last: Rect = self.rooms[self.rooms.len() - 1];
        let first: Rect = self.rooms[0];
        let start_pos: (i32, i32) = first.center();
        self.starting_position = Position { x: start_pos.0, y: start_pos.1 };
        if self.rooms.len() < 2 {
            return Err(BuildError::NoExit);
        }
        proof {
            assert(room_fits(last));
            assert(room_fits(first));
            self.lemma_centers(self.rooms@.len() - 1);
            self.lemma_centers(0);
        }
        let stairs_pos: (i32, i32) = last.center();
        let ghost joined = self.map;
        let ghost was = *self;
        self.map.set_tile(stairs_pos.0, stairs_pos.1, TileType::DownStairs);
        proof {
            crate::map_builder::common::lemma_stairs_keep_joined(
                &joined,
                &self.map,
                center_index(first),
                center_index(last),
            );
            assert forall|k: int| 0 <= k < self.rooms@.len() - 1 implies self.map.tiles@[center_index(
                #[trigger] self.rooms@[k],
            )] == TileType::Floor by {
                was.lemma_centers(k);
            }
        }
        Ok(())
    }

    /// The middle of room `k` is a floor tile on the map, and no other
    /// room has its middle there.
    proof fn lemma_centers(&self, k: int)
        requires
            self.wf(),
            0 <= k < self.rooms@.len(),
            rooms_apart(self.rooms@),
            rooms_carved(&self.map, self.rooms@),
        ensures
            0 <= center_index(self.rooms@[k]) < self.map.tiles@.len(),
            self.map.tiles@[center_index(self.rooms@[k])] == TileType::Floor,
            center_index(self.rooms@[k]) == self.map.idx(
                self.rooms@[k].center_point().0,
                self.rooms@[k].center_point().1,
            ),
            self.map.in_bounds(self.rooms@[k].center_point().0, self.rooms@[k].center_point().1),
            forall|m: int|
                0 <= m < self.rooms@.len() && m != k ==> center_index(#[trigger] self.rooms@[m]) != center_index(
                    self.rooms@[k],
                ),
    {
        let room = self.rooms@[k];
        assert(room_fits(room));
        let rc = room.center_point();
        self.map.lemma_idx_bounds(rc.0, rc.1);
        assert(room_cell_carved(&self.map, self.rooms@, k, center_index(room)));
        assert forall|m: int| 0 <= m < self.rooms@.len() && m != k implies center_index(
            #[trigger] self.rooms@[m],
        ) != center_index(room) by {
            let other = self.rooms@[m];
            assert(room_fits(other));
            if m < k {
                assert(!self.rooms@[m].overlaps(&self.rooms@[k], 0));
            } else {
                assert(!self.rooms@[k].overlaps(&self.rooms@[m], 0));
            }
            let oc = other.center_point();
            self.map.lemma_idx_bounds(oc.0, oc.1);
        }
    }
}

} // verus!
