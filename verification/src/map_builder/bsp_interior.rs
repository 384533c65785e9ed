use crate::components::Position;
use crate::map::{MAP_HEIGHT, MAP_WIDTH, TileMap, TileType};
use crate::map_builder::cellular_automata::cave_tiles;
use crate::map_builder::common::{
    all_joined, BuildError, corridor_drawn, corridor_fits, corridor_tile, corridors_between, corridors_over,
    draw_corridor, ground, lemma_corridor_added, lemma_corridor_joined, lemma_corridor_keeps_links, on_corridor,
    plain_tiles, point_in,
};
use crate::map_builder::simple_map::center_index;
use crate::random::roll_dice;
use crate::rect::Rect;
use rltk::RandomNumberGenerator;
use vstd::prelude::*;

verus! {

/// A rectangle is split further only while the halves stay wider, or
/// higher, than this.
pub const MIN_ROOM_SIZE: i32 = 8;

/// Builds a level that is all rooms: the map is split in two again and
/// again, and every piece that is left becomes a room.
pub struct BspInteriorBuilder {
    pub map: TileMap,
    pub starting_position: Position,
    pub depth: i32,
    pub rooms: Vec<Rect>,
    pub rects: Vec<Rect>,
}

/// `piece` lies inside `rect` and is at least three cells wide and high.
pub open spec fn piece_of(piece: Rect, rect: Rect) -> bool {
    &&& rect.x1 <= piece.x1
    &&& piece.x1 + 3 <= piece.x2 <= rect.x2
    &&& rect.y1 <= piece.y1
    &&& piece.y1 + 3 <= piece.y2 <= rect.y2
}

/// The two halves into which a roll of a four-sided die splits a
/// rectangle: left and right on a 1 or a 2, top and bottom otherwise.
/// The first half is one cell short, which leaves a wall between the two.
pub open spec fn halves_of(rect: Rect, split: int) -> (Rect, Rect) {
    let width = rect.x2 - rect.x1;
    let height = rect.y2 - rect.y1;
    let half_width = width / 2;
    let half_height = height / 2;
    if split <= 2 {
        (
            Rect { x1: rect.x1, x2: (rect.x1 + half_width - 1) as i32, y1: rect.y1, y2: rect.y2 },
            Rect { x1: (rect.x1 + half_width) as i32, x2: (rect.x1 + 2 * half_width) as i32, y1: rect.y1, y2: rect.y2 },
        )
    } else {
        (
            Rect { x1: rect.x1, x2: rect.x2, y1: rect.y1, y2: (rect.y1 + half_height - 1) as i32 },
            Rect {
                x1: rect.x1,
                x2: rect.x2,
                y1: (rect.y1 + half_height) as i32,
                y2: (rect.y1 + 2 * half_height) as i32,
            },
        )
    }
}

/// Splits a rectangle in two.
pub fn halves(rect: Rect, split: i32) -> (pieces: (Rect, Rect))
    requires
        0 <= rect.x1 <= rect.x2 <= 0x1000_0000,
        0 <= rect.y1 <= rect.y2 <= 0x1000_0000,
    ensures
        pieces == halves_of(rect, split as int),
{
    let width: i32 = rect.x2 - rect.x1;
    let height: i32 = rect.y2 - rect.y1;
    let half_width: i32 = width / 2;
    let half_height: i32 = height / 2;
    if split <= 2 {
        (
            Rect::new(rect.x1, rect.y1, half_width - 1, height),
            Rect::new(rect.x1 + half_width, rect.y1, half_width, height),
        )
    } else {
        (
            Rect::new(rect.x1, rect.y1, width, half_height - 1),
            Rect::new(rect.x1, rect.y1 + half_height, width, half_height),
        )
    }
}

/// Whether the halves of `rect` are cut again: they are while half the
/// extent that was cut is more than `MIN_ROOM_SIZE`.
pub open spec fn cut_again(rect: Rect, split: int) -> bool {
    if split <= 2 {
        (rect.x2 - rect.x1) / 2 > MIN_ROOM_SIZE
    } else {
        (rect.y2 - rect.y1) / 2 > MIN_ROOM_SIZE
    }
}

/// How a rectangle was halved: not at all, or in two by a roll of the
/// die, each half halved in its turn.
pub enum Halving {
    Whole,
    Cut(int, Box<Halving>, Box<Halving>),
}

/// `how` is a way in which `rect` is halved: it is cut in two by a roll
/// from 1 to 4, and each half is cut again where half the extent that was
/// cut is more than `MIN_ROOM_SIZE`, and left whole where it is not.
pub open spec fn halved_by(rect: Rect, how: Halving) -> bool
    decreases how,
{
    match how {
        Halving::Whole => false,
        Halving::Cut(split, first, second) => {
            &&& 1 <= split <= 4
            &&& if cut_again(rect, split) {
                halved_by(halves_of(rect, split).0, *first) && halved_by(halves_of(rect, split).1, *second)
            } else {
                *first == Halving::Whole && *second == Halving::Whole
            }
        },
    }
}

/// The pieces into which `rect` falls when it is halved as `how` says,
/// the pieces of the first half first.
pub open spec fn pieces_by(rect: Rect, how: Halving) -> Seq<Rect>
    decreases how,
{
    match how {
        Halving::Whole => seq![rect],
        Halving::Cut(split, first, second) => pieces_by(halves_of(rect, split).0, *first) + pieces_by(
            halves_of(rect, split).1,
            *second,
        ),
    }
}

/// `pieces` are the leaves of halving `rect`: of cutting it in two and
/// each half again, down to `MIN_ROOM_SIZE`.
pub open spec fn leaves_of(rect: Rect, pieces: Seq<Rect>) -> bool {
    exists|how: Halving| halved_by(rect, how) && pieces == #[trigger] pieces_by(rect, how)
}

/// Two rectangles share no cell.
pub open spec fn apart(a: Rect, b: Rect) -> bool {
    a.x2 <= b.x1 || b.x2 <= a.x1 || a.y2 <= b.y1 || b.y2 <= a.y1
}

/// The pieces of a halving lie inside the rectangle and apart from each
/// other.
pub proof fn lemma_pieces_apart(rect: Rect, how: Halving)
    requires
        halved_by(rect, how),
        rect.x1 + MIN_ROOM_SIZE <= rect.x2,
        rect.y1 + MIN_ROOM_SIZE <= rect.y2,
    ensures
        pieces_by(rect, how).len() >= 2,
        forall|k: int| 0 <= k < pieces_by(rect, how).len() ==> piece_of(#[trigger] pieces_by(rect, how)[k], rect),
        forall|j: int, k: int|
            0 <= j < k < pieces_by(rect, how).len() ==> apart(
                #[trigger] pieces_by(rect, how)[j],
                #[trigger] pieces_by(rect, how)[k],
            ),
    decreases how,
{
    match how {
        Halving::Whole => {},
        Halving::Cut(split, a, b) => {
            let first = halves_of(rect, split).0;
            let second = halves_of(rect, split).1;
            let left = pieces_by(first, *a);
            let right = pieces_by(second, *b);
            let pieces = pieces_by(rect, how);
            assert(piece_of(first, rect) && piece_of(second, rect) && apart(first, second));
            if cut_again(rect, split) {
                lemma_pieces_apart(first, *a);
                lemma_pieces_apart(second, *b);
            } else {
                assert(left =~= seq![first]);
                assert(right =~= seq![second]);
            }
            let n = left.len() as int;
            assert forall|k: int| 0 <= k < pieces.len() implies piece_of(#[trigger] pieces[k], rect) && (if k < n {
                piece_of(pieces[k], first)
            } else {
                piece_of(pieces[k], second)
            }) by {
                if k < n {
                    assert(pieces[k] == left[k]);
                } else {
                    assert(pieces[k] == right[k - n]);
                }
            }
            assert forall|j: int, k: int| 0 <= j < k < pieces.len() implies apart(
                #[trigger] pieces[j],
                #[trigger] pieces[k],
            ) by {
                if k < n {
                    assert(pieces[j] == left[j] && pieces[k] == left[k]);
                } else if j >= n {
                    assert(pieces[j] == right[j - n] && pieces[k] == right[k - n]);
                } else {
                    assert(piece_of(pieces[j], first));
                    assert(piece_of(pieces[k], second));
                }
            }
        },
    }
}

/// The leaves of halving a rectangle lie inside it and apart from each
/// other.
pub proof fn lemma_leaves_apart(rect: Rect, pieces: Seq<Rect>)
    requires
        leaves_of(rect, pieces),
        rect.x1 + MIN_ROOM_SIZE <= rect.x2,
        rect.y1 + MIN_ROOM_SIZE <= rect.y2,
    ensures
        pieces.len() >= 2,
        forall|k: int| 0 <= k < pieces.len() ==> piece_of(#[trigger] pieces[k], rect),
        forall|j: int, k: int| 0 <= j < k < pieces.len() ==> apart(#[trigger] pieces[j], #[trigger] pieces[k]),
{
    let how = choose|how: Halving| halved_by(rect, how) && pieces == #[trigger] pieces_by(rect, how);
    lemma_pieces_apart(rect, how);
}

/// `first` lies in the first half and `last` in the second half of one
/// of the splits of `rect`.
pub open spec fn split_ends(first: Rect, last: Rect, rect: Rect) -> bool {
    exists|split: int|
        1 <= split <= 4 && piece_of(first, (#[trigger] halves_of(rect, split)).0) && piece_of(
            last,
            halves_of(rect, split).1,
        )
}

/// Pieces of the two halves of a rectangle have different middles.
pub proof fn lemma_split_ends_apart(first: Rect, last: Rect, rect: Rect)
    requires
        split_ends(first, last, rect),
        0 <= rect.x1 <= rect.x2,
        0 <= rect.y1 <= rect.y2,
    ensures
        first.center_point() != last.center_point(),
{
    let split = choose|split: int|
        1 <= split <= 4 && piece_of(first, (#[trigger] halves_of(rect, split)).0) && piece_of(
            last,
            halves_of(rect, split).1,
        );
    if split <= 2 {
        assert(first.center_point().0 <= first.x2);
        assert(last.center_point().0 >= last.x1);
    } else {
        assert(first.center_point().1 <= first.y2);
        assert(last.center_point().1 >= last.y1);
    }
}

/// The rectangle that the map is split from: all of it but the rim.
pub open spec fn whole() -> Rect {
    Rect { x1: 1, x2: (MAP_WIDTH - 1) as i32, y1: 1, y2: (MAP_HEIGHT - 1) as i32 }
}

/// What carving `room` leaves at cell `i`, which lies at `(cx, cy)`:
/// floor inside the room, but for the first and the last cell of the map.
pub open spec fn carved_tile(room: Rect, len: int, i: int, cx: int, cy: int, before: TileType) -> TileType {
    if room.x1 <= cx < room.x2 && room.y1 <= cy < room.y2 && 0 < i < len - 1 {
        TileType::Floor
    } else {
        before
    }
}

/// The cell `(x, y)` lies in the room.
pub open spec fn in_room(room: Rect, x: int, y: int) -> bool {
    room.x1 <= x < room.x2 && room.y1 <= y < room.y2
}

/// The cell `(x, y)` lies in one of the rooms after room `i`.
pub open spec fn in_later_room(rooms: Seq<Rect>, i: int, x: int, y: int) -> bool {
    exists|k: int| i < k < rooms.len() && in_room(#[trigger] rooms[k], x, y)
}

/// Cell `j`, if it lies in room `k`, can be reached from `start`.
pub open spec fn room_cell_linked(map: &TileMap, rooms: Seq<Rect>, k: int, j: int, start: int) -> bool {
    in_room(rooms[k], map.x_of(j), map.y_of(j)) ==> ground(map).linked(start, j)
}

/// Every cell of the rooms up to room `upto` can be reached from `start`.
pub open spec fn rooms_linked(map: &TileMap, rooms: Seq<Rect>, upto: int, start: int) -> bool {
    forall|k: int, j: int|
        0 <= k <= upto && k < rooms.len() && 0 <= j < map.tiles@.len() ==> #[trigger] room_cell_linked(
            map,
            rooms,
            k,
            j,
            start,
        )
}

/// Floor tile `j` can be reached from `start` or lies in a room after
/// room `i`.
pub open spec fn floor_cell_settled(map: &TileMap, rooms: Seq<Rect>, i: int, j: int, start: int) -> bool {
    map.tiles@[j] == TileType::Floor ==> ground(map).linked(start, j) || in_later_room(
        rooms,
        i,
        map.x_of(j),
        map.y_of(j),
    )
}

/// Every floor tile can be reached from `start` or lies in a room after
/// room `i`.
pub open spec fn floor_linked_or_later(map: &TileMap, rooms: Seq<Rect>, i: int, start: int) -> bool {
    forall|j: int| 0 <= j < map.tiles@.len() ==> #[trigger] floor_cell_settled(map, rooms, i, j, start)
}

/// Every floor tile lies in a room.
pub open spec fn floor_in_rooms(map: &TileMap, rooms: Seq<Rect>) -> bool {
    forall|j: int|
        0 <= j < map.tiles@.len() && #[trigger] map.tiles@[j] == TileType::Floor ==> in_later_room(
            rooms,
            -1,
            map.x_of(j),
            map.y_of(j),
        )
}

/// Cell `j`, if it lies in room `k`, is floor or the stairway.
pub open spec fn room_cell_carved(map: &TileMap, rooms: Seq<Rect>, k: int, j: int) -> bool {
    in_room(rooms[k], map.x_of(j), map.y_of(j)) ==> map.tiles@[j] == TileType::Floor || map.tiles@[j]
        == TileType::DownStairs
}

/// Every cell of every room is floor or the stairway.
pub open spec fn rooms_carved(map: &TileMap, rooms: Seq<Rect>) -> bool {
    forall|k: int, j: int|
        0 <= k < rooms.len() && 0 <= j < map.tiles@.len() ==> #[trigger] room_cell_carved(map, rooms, k, j)
}

/// A corridor from a cell of room `i` to a cell of the next room links
/// that room to what the rooms before are linked to.
proof fn lemma_join_rooms_linked(
    before: &TileMap,
    after: &TileMap,
    rooms: Seq<Rect>,
    i: int,
    start: int,
    x1: int,
    y1: int,
    x2: int,
    y2: int,
)
    requires
        before.wf(),
        before.width == MAP_WIDTH,
        before.height == MAP_HEIGHT,
        corridor_drawn(before, after, x1, y1, x2, y2),
        plain_tiles(before.tiles@),
        0 <= i,
        i + 1 < rooms.len(),
        forall|k: int| 0 <= k < rooms.len() ==> piece_of(#[trigger] rooms[k], whole()),
        rooms_carved(before, rooms),
        rooms_linked(before, rooms, i, start),
        in_room(rooms[i], x1, y1),
        in_room(rooms[i + 1], x2, y2),
    ensures
        rooms_linked(after, rooms, i + 1, start),
        forall|x: int, y: int|
            on_corridor(x1, y1, x2, y2, x, y) ==> ground(after).linked(
                start,
                #[trigger] crate::map::cell_index(before.width as int, x, y),
            ),
{
    let w = before.width as int;
    let t = ground(after);
    assert(piece_of(rooms[i], whole()));
    assert(piece_of(rooms[i + 1], whole()));
    before.lemma_idx_bounds(x1, y1);
    let p = before.idx(x1, y1);
    assert(room_cell_linked(before, rooms, i, p, start));
    assert(room_cell_carved(before, rooms, i, p));
    lemma_corridor_joined(before, after, x1, y1, x2, y2, start);
    let next = rooms[i + 1];
    assert forall|x: int, y: int|
        next.x1 <= x <= next.x2 - 1 && next.y1 <= y <= next.y2 - 1 implies #[trigger] t.open_at(x, y) by {
        before.lemma_idx_bounds(x, y);
        let j = before.idx(x, y);
        assert(room_cell_carved(before, rooms, i + 1, j));
        assert(before.tiles@[j] == TileType::Floor);
        assert(after.tiles@[j] == TileType::Floor);
    }
    t.lemma_linked_block(start, next.x1 as int, next.x2 - 1, next.y1 as int, next.y2 - 1, x2, y2);
    assert forall|k: int, j: int|
        0 <= k <= i + 1 && k < rooms.len() && 0 <= j < after.tiles@.len() implies #[trigger] room_cell_linked(
        after,
        rooms,
        k,
        j,
        start,
    ) by {
        if in_room(rooms[k], after.x_of(j), after.y_of(j)) {
            before.lemma_cell_of_index(j);
            if k <= i {
                assert(room_cell_linked(before, rooms, k, j, start));
                lemma_corridor_keeps_links(before, after, x1, y1, x2, y2, start, j);
            } else {
                assert(t.linked(start, crate::map::cell_index(w, before.x_of(j), before.y_of(j))));
            }
        }
    }
}

/// After such a corridor, every floor tile is linked or lies in a room
/// still further on.
proof fn lemma_join_floor_settled(
    before: &TileMap,
    after: &TileMap,
    rooms: Seq<Rect>,
    i: int,
    start: int,
    x1: int,
    y1: int,
    x2: int,
    y2: int,
)
    requires
        before.wf(),
        corridor_drawn(before, after, x1, y1, x2, y2),
        plain_tiles(before.tiles@),
        0 <= i,
        i + 1 < rooms.len(),
        floor_linked_or_later(before, rooms, i, start),
        rooms_linked(after, rooms, i + 1, start),
        forall|x: int, y: int|
            on_corridor(x1, y1, x2, y2, x, y) ==> ground(after).linked(
                start,
                #[trigger] crate::map::cell_index(before.width as int, x, y),
            ),
    ensures
        floor_linked_or_later(after, rooms, i + 1, start),
{
    let w = before.width as int;
    let t = ground(after);
    assert forall|j: int| 0 <= j < after.tiles@.len() implies #[trigger] floor_cell_settled(
        after,
        rooms,
        i + 1,
        j,
        start,
    ) by {
        if after.tiles@[j] == TileType::Floor {
            before.lemma_cell_of_index(j);
            let x = before.x_of(j);
            let y = before.y_of(j);
            if on_corridor(x1, y1, x2, y2, x, y) {
                assert(t.linked(start, crate::map::cell_index(w, x, y)));
            } else {
                assert(before.tiles@[j] == TileType::Floor);
                assert(floor_cell_settled(before, rooms, i, j, start));
                if ground(before).linked(start, j) {
                    lemma_corridor_keeps_links(before, after, x1, y1, x2, y2, start, j);
                } else {
                    let k = choose|k: int| i < k < rooms.len() && in_room(#[trigger] rooms[k], x, y);
                    if k == i + 1 {
                        assert(room_cell_linked(after, rooms, k, j, start));
                    } else {
                        assert(in_room(rooms[k], x, y));
                    }
                }
            }
        }
    }
}

/// Carves the inside of a room.
pub fn carve_room(map: &mut TileMap, room: Rect)
    requires
        old(map).wf(),
        0 <= room.x1,
        room.x2 <= old(map).width,
        0 <= room.y1,
        room.y2 <= old(map).height,
    ensures
        final(map).same_frame(old(map)),
        forall|i: int|
            0 <= i < final(map).tiles@.len() ==> #[trigger] final(map).tiles@[i] == carved_tile(
                room,
                old(map).tiles@.len() as int,
                i,
                old(map).x_of(i),
                old(map).y_of(i),
                old(map).tiles@[i],
            ),
{
    let ghost len = map.tiles@.len() as int;
    let mut y: i32 = room.y1;
    while y < room.y2
        invariant
            map.same_frame(old(map)),
            len == map.tiles@.len(),
            0 <= room.x1,
            room.x2 <= map.width,
            0 <= room.y1,
            room.y2 <= map.height,
            room.y1 <= y,
            forall|i: int|
                0 <= i < map.tiles@.len() ==> #[trigger] map.tiles@[i] == (if old(map).y_of(i) < y {
                    carved_tile(room, len, i, old(map).x_of(i), old(map).y_of(i), old(map).tiles@[i])
                } else {
                    old(map).tiles@[i]
                }),
        decreases room.y2 - y,
    {
        let mut x: i32 = room.x1;
        while x < room.x2
            invariant
                map.same_frame(old(map)),
                len == map.tiles@.len(),
                0 <= room.x1,
                room.x2 <= map.width,
                0 <= room.y1,
                room.y2 <= map.height,
                room.y1 <= y < room.y2,
                room.x1 <= x,
                forall|i: int|
                    0 <= i < map.tiles@.len() ==> #[trigger] map.tiles@[i] == (if old(map).y_of(i) < y
                        || (old(map).y_of(i) == y && old(map).x_of(i) < x) {
                        carved_tile(room, len, i, old(map).x_of(i), old(map).y_of(i), old(map).tiles@[i])
                    } else {
                        old(map).tiles@[i]
                    }),
            decreases room.x2 - x,
        {
            let idx: usize = map.xy_idx(x, y);
            proof {
                assert forall|i: int|
                    0 <= i < map.tiles@.len() && #[trigger] old(map).y_of(i) == y && old(map).x_of(i)
                        == x implies i == idx by {
                    old(map).lemma_cell_of_index(i);
                }
                assert(old(map).x_of(idx as int) == x && old(map).y_of(idx as int) == y);
            }
            if idx > 0 && idx < ((map.width * map.height) - 1) as usize {
                map.tiles[idx] = TileType::Floor;
            }
            x += 1;
        }
        y += 1;
    }
}

impl BspInteriorBuilder {
    /// The map has the standard size.
    pub open spec fn wf(&self) -> bool {
        &&& self.map.wf()
        &&& self.map.width == MAP_WIDTH
        &&& self.map.height == MAP_HEIGHT
    }

    /// Nothing has been built yet: the map is solid rock and there are
    /// no rooms.
    pub open spec fn unbuilt(&self) -> bool {
        &&& self.wf()
        &&& self.rooms@.len() == 0
        &&& forall|i: int| 0 <= i < self.map.tiles@.len() ==> #[trigger] self.map.tiles@[i] == TileType::Wall
    }

    /// The index of the starting position.
    pub open spec fn start_index(&self) -> int {
        self.map.idx(self.starting_position.x as int, self.starting_position.y as int)
    }

    /// The level is done: the rooms are the leaves of halving the map
    /// without its rim, at least two, apart from each other and carved
    /// out; the player starts in the middle of
    /// the first, on floor; the only stairway down is in the middle of
    /// the last; no placeholder is left; and a route leads from the start
    /// to every floor tile and to the stairs.
    pub open spec fn finished(&self) -> bool {
        &&& self.wf()
        &&& self.rooms@.len() >= 2
        &&& leaves_of(whole(), self.rooms@)
        &&& forall|j: int, k: int|
            0 <= j < k < self.rooms@.len() ==> apart(#[trigger] self.rooms@[j], #[trigger] self.rooms@[k])
        &&& forall|k: int| 0 <= k < self.rooms@.len() ==> piece_of(#[trigger] self.rooms@[k], whole())
        &&& rooms_carved(&self.map, self.rooms@)
        &&& (self.starting_position.x as int, self.starting_position.y as int) == self.rooms@[0].center_point()
        &&& forall|i: int|
            0 <= i < self.map.tiles@.len() ==> (#[trigger] self.map.tiles@[i] == TileType::DownStairs <==> i
                == center_index(self.rooms@.last()))
        &&& forall|i: int| 0 <= i < self.map.tiles@.len() ==> #[trigger] self.map.tiles@[i] != TileType::Placeholder
        &&& self.map.tiles@[self.start_index()] == TileType::Floor
        &&& all_joined(&self.map, self.start_index())
    }

    #[allow(dead_code)]
    pub fn new(depth: i32) -> (builder: BspInteriorBuilder)
        ensures
            builder.unbuilt(),
            builder.depth == depth,
            builder.map.depth == depth,
            builder.rects@.len() == 0,
            builder.starting_position == (Position { x: 0, y: 0 }),
    {
        BspInteriorBuilder {
            map: TileMap::new(MAP_WIDTH as i32, MAP_HEIGHT as i32, depth, Some(TileType::Wall)),
            starting_position: Position { x: 0, y: 0 },
            depth,
            rooms: Vec::new(),
            rects: Vec::new(),
        }
    }

    /// An independent copy of the map.
    pub fn get_map(&self) -> (map: TileMap)
        ensures
            map.same_shape(&self.map),
            map.tiles@ == self.map.tiles@,
            map.revealed_tiles@ == self.map.revealed_tiles@,
            map.visible_tiles@ == self.map.visible_tiles@,
            map.blocked@ == self.map.blocked@,
    {
        self.map.duplicate()
    }

    pub fn get_starting_position(&self) -> (position: Position)
        ensures
            position == self.starting_position,
    {
        self.starting_position
    }

    /// The rooms in which to spawn: all but the first, where the player
    /// starts.
    pub fn spawn(&self) -> (rooms: Vec<Rect>)
        ensures
            rooms@ == (if self.rooms@.len() == 0 {
                self.rooms@
            } else {
                self.rooms@.subrange(1, self.rooms@.len() as int)
            }),
    {
        let mut rooms: Vec<Rect> = Vec::new();
        let mut k: usize = 1;
        while k < self.rooms.len()
            invariant
                1 <= k,
                k <= self.rooms@.len() || self.rooms@.len() == 0,
                self.rooms@.len() > 0 ==> rooms@ == self.rooms@.subrange(1, k as int),
                self.rooms@.len() == 0 ==> rooms@.len() == 0,
            decreases self.rooms@.len() - k,
        {
            rooms.push(self.rooms[k]);
            proof {
                assert(rooms@ =~= self.rooms@.subrange(1, k + 1));
            }
            k += 1;
        }
        proof {
            if self.rooms@.len() == 0 {
                assert(rooms@ =~= self.rooms@);
            }
        }
        rooms
    }

    /// Takes the last rectangle off the list and puts in its place the
    /// pieces into which `rect` falls: `rect` is cut in two, left and
    /// right or top and bottom as a die decides, and each half is cut
    /// again as long as half the cut extent is more than `MIN_ROOM_SIZE`.
    pub fn add_subrects(&mut self, rect: Rect, rng: &mut RandomNumberGenerator)
        requires
            0 <= rect.x1,
            rect.x1 + MIN_ROOM_SIZE <= rect.x2 <= 0x1000_0000,
            0 <= rect.y1,
            rect.y1 + MIN_ROOM_SIZE <= rect.y2 <= 0x1000_0000,
        ensures
            final(self).map == old(self).map,
            final(self).rooms == old(self).rooms,
            final(self).depth == old(self).depth,
            final(self).starting_position == old(self).starting_position,
            ({
                let kept: int = if old(self).rects@.len() > 0 {
                    old(self).rects@.len() - 1
                } else {
                    0
                };
                &&& final(self).rects@.len() >= kept + 2
                &&& forall|k: int| 0 <= k < kept ==> #[trigger] final(self).rects@[k] == old(self).rects@[k]
                &&& forall|k: int| kept <= k < final(self).rects@.len() ==> piece_of(#[trigger] final(self).rects@[k], rect)
                &&& split_ends(final(self).rects@[kept], final(self).rects@.last(), rect)
                &&& leaves_of(rect, final(self).rects@.subrange(kept, final(self).rects@.len() as int))
            }),
        decreases (rect.x2 - rect.x1) + (rect.y2 - rect.y1),
    {
        if self.rects.len() > 0 {
            self.rects.pop();
        }
        let ghost kept = self.rects@;
        let width: i32 = rect.x2 - rect.x1;
        let height: i32 = rect.y2 - rect.y1;
        let split: i32 = roll_dice(rng, 1, 4);
        let (first, second) = halves(rect, split);
        let deeper: bool = if split <= 2 {
            width / 2 > MIN_ROOM_SIZE
        } else {
            height / 2 > MIN_ROOM_SIZE
        };
        self.rects.push(first);
        if deeper {
            self.add_subrects(first, rng)
        }
        let ghost mid = self.rects@;
        let ghost left = mid.subrange(kept.len() as int, mid.len() as int);
        let ghost how_first = if deeper {
            choose|how: Halving| halved_by(first, how) && left == #[trigger] pieces_by(first, how)
        } else {
            Halving::Whole
        };
        proof {
            if !deeper {
                assert(left =~= seq![first]);
            } else {
                assert(leaves_of(first, left));
            }
            assert(left == pieces_by(first, how_first));
            assert(deeper ==> halved_by(first, how_first));
        }
        self.rects.push(second);
        if deeper {
            self.add_subrects(second, rng)
        }
        proof {
            let pieces = self.rects@.subrange(kept.len() as int, self.rects@.len() as int);
            let right = self.rects@.subrange(mid.len() as int, self.rects@.len() as int);
            let how_second = if deeper {
                choose|how: Halving| halved_by(second, how) && right == #[trigger] pieces_by(second, how)
            } else {
                Halving::Whole
            };
            if !deeper {
                assert(right =~= seq![second]);
            } else {
                assert(leaves_of(second, right));
            }
            assert(right == pieces_by(second, how_second));
            assert(deeper ==> halved_by(second, how_second));
            assert forall|k: int| 0 <= k < mid.len() implies self.rects@[k] == mid[k] by {
                if deeper {
                    assert(mid.push(second)[k] == mid[k]);
                }
            }
            assert((first, second) == halves_of(rect, split as int));
            assert(deeper == cut_again(rect, split as int));
            let how = Halving::Cut(split as int, Box::new(how_first), Box::new(how_second));
            assert(halved_by(rect, how));
            assert(pieces =~= left + right);
            assert(pieces_by(rect, how) == pieces_by(first, how_first) + pieces_by(second, how_second));
            assert(pieces == pieces_by(rect, how));
            assert(leaves_of(rect, pieces));
        }
        proof {
            assert forall|k: int| kept.len() <= k < self.rects@.len() implies piece_of(
                #[trigger] self.rects@[k],
                rect,
            ) by {
                if k < mid.len() {
                    assert(self.rects@[k] == mid[k]);
                    assert(piece_of(mid[k], first));
                } else {
                    assert(piece_of(self.rects@[k], second));
                }
            }
            assert forall|k: int| 0 <= k < kept.len() implies #[trigger] self.rects@[k] == old(self).rects@[k] by {
                assert(self.rects@[k] == mid[k]);
                assert(mid[k] == kept[k]);
            }
            assert(self.rects@[kept.len() as int] == mid[kept.len() as int]);
            assert(piece_of(mid[kept.len() as int], first));
            assert(piece_of(self.rects@.last(), second));
            assert((first, second) == halves_of(rect, split as int));
            assert(split_ends(self.rects@[kept.len() as int], self.rects@.last(), rect));
        }
    }

    pub fn draw_corridor(&mut self, x1: i32, y1: i32, x2: i32, y2: i32)
        requires
            old(self).wf(),
            corridor_fits(&old(self).map, x1 as int, y1 as int, x2 as int, y2 as int),
        ensures
            final(self).wf(),
            final(self).map.same_frame(&old(self).map),
            final(self).rooms == old(self).rooms,
            final(self).rects == old(self).rects,
            final(self).depth == old(self).depth,
            final(self).starting_position == old(self).starting_position,
            forall|i: int|
                0 <= i < final(self).map.tiles@.len() ==> #[trigger] final(self).map.tiles@[i] == corridor_tile(
                    x1 as int,
                    y1 as int,
                    x2 as int,
                    y2 as int,
                    old(self).map.x_of(i),
                    old(self).map.y_of(i),
                    old(self).map.tiles@[i],
                ),
    {
        draw_corridor(&mut self.map, x1, y1, x2, y2);
    }

    /// Carves every piece as a room.
    pub fn carve_rooms(&mut self)
        requires
            old(self).wf(),
            old(self).rooms@.len() == 0,
            forall|i: int| 0 <= i < old(self).map.tiles@.len() ==> #[trigger] old(self).map.tiles@[i] == TileType::Wall,
            forall|k: int| 0 <= k < old(self).rects@.len() ==> piece_of(#[trigger] old(self).rects@[k], whole()),
        ensures
            final(self).wf(),
            final(self).map.same_frame(&old(self).map),
            final(self).depth == old(self).depth,
            final(self).starting_position == old(self).starting_position,
            final(self).rooms@ == old(self).rects@,
            cave_tiles(final(self).map.tiles@),
            rooms_carved(&final(self).map, final(self).rooms@),
            floor_in_rooms(&final(self).map, final(self).rooms@),
    {
        let mut r: usize = 0;
        while r < self.rects.len()
            invariant
                self.wf(),
                old(self).wf(),
                self.map.same_frame(&old(self).map),
                self.depth == old(self).depth,
                self.starting_position == old(self).starting_position,
                self.rects@ == old(self).rects@,
                r <= self.rects@.len(),
                self.rooms@ == self.rects@.subrange(0, r as int),
                cave_tiles(self.map.tiles@),
                rooms_carved(&self.map, self.rooms@),
                floor_in_rooms(&self.map, self.rooms@),
                forall|k: int| 0 <= k < self.rects@.len() ==> piece_of(#[trigger] self.rects@[k], whole()),
            decreases self.rects@.len() - r,
        {
            let room: Rect = self.rects[r];
            proof {
                assert(piece_of(room, whole()));
            }
            let ghost before = self.map;
            let ghost carved = self.rooms@;
            self.rooms.push(room);
            carve_room(&mut self.map, room);
            proof {
                assert(self.rooms@ =~= self.rects@.subrange(0, r + 1));
                assert forall|k: int, j: int|
                    0 <= k < self.rooms@.len() && 0 <= j < self.map.tiles@.len() implies #[trigger] room_cell_carved(
                    &self.map,
                    self.rooms@,
                    k,
                    j,
                ) by {
                    before.lemma_cell_of_index(j);
                    if k < carved.len() {
                        assert(carved[k] == self.rooms@[k]);
                        assert(room_cell_carved(&before, carved, k, j));
                    } else {
                        assert(self.rooms@[k] == room);
                        before.lemma_idx_bounds(before.x_of(j), before.y_of(j));
                    }
                }
                assert forall|j: int| 0 <= j < self.map.tiles@.len() implies (#[trigger] self.map.tiles@[j]
                    == TileType::Wall || self.map.tiles@[j] == TileType::Floor) by {
                    assert(before.tiles@[j] == TileType::Wall || before.tiles@[j] == TileType::Floor);
                }
                assert forall|j: int|
                    0 <= j < self.map.tiles@.len() && #[trigger] self.map.tiles@[j]
                        == TileType::Floor implies in_later_room(
                    self.rooms@,
                    -1,
                    self.map.x_of(j),
                    self.map.y_of(j),
                ) by {
                    if before.tiles@[j] == TileType::Floor {
                        let k = choose|k: int|
                            -1 < k < carved.len() && in_room(#[trigger] carved[k], before.x_of(j), before.y_of(j));
                        assert(self.rooms@[k] == carved[k]);
                        assert(in_room(self.rooms@[k], self.map.x_of(j), self.map.y_of(j)));
                    } else {
                        assert(in_room(self.rooms@[r as int], self.map.x_of(j), self.map.y_of(j)));
                    }
                }
            }
            r += 1;
        }
        proof {
            assert(self.rects@.subrange(0, self.rects@.len() as int) =~= self.rects@);
        }
    }

    /// Joins each room to the next by a corridor between two points
    /// drawn at random, one in each room.
    pub fn join_rooms(&mut self, rng: &mut RandomNumberGenerator)
        requires
            old(self).wf(),
            old(self).rooms@.len() >= 1,
            cave_tiles(old(self).map.tiles@),
            rooms_carved(&old(self).map, old(self).rooms@),
            floor_in_rooms(&old(self).map, old(self).rooms@),
            forall|k: int| 0 <= k < old(self).rooms@.len() ==> piece_of(#[trigger] old(self).rooms@[k], whole()),
        ensures
            final(self).wf(),
            final(self).map.same_frame(&old(self).map),
            final(self).depth == old(self).depth,
            final(self).starting_position == old(self).starting_position,
            final(self).rooms@ == old(self).rooms@,
            cave_tiles(final(self).map.tiles@),
            rooms_carved(&final(self).map, final(self).rooms@),
            all_joined(&final(self).map, center_index(final(self).rooms@[0])),
            final(self).rects@ == old(self).rects@,
            exists|ends: Seq<(int, int, int, int)>| #[trigger]
                corridors_between(final(self).rooms@, ends) && final(self).map.tiles@ == corridors_over(
                    old(self).map.tiles@,
                    MAP_WIDTH as int,
                    ends,
                    ends.len() as int,
                ),
    {
        let ghost start = center_index(self.rooms@[0]);
        let ghost mut ends: Seq<(int, int, int, int)> = Seq::empty();
        proof {
            self.lemma_first_room_linked();
        }
        let mut i: usize = 0;
        while i < self.rooms.len() && i + 1 < self.rooms.len()
            invariant
                self.wf(),
                old(self).wf(),
                self.map.same_frame(&old(self).map),
                self.depth == old(self).depth,
                self.starting_position == old(self).starting_position,
                self.rooms@ == old(self).rooms@,
                self.rooms@.len() >= 1,
                i < self.rooms@.len(),
                start == center_index(self.rooms@[0]),
                cave_tiles(self.map.tiles@),
                rooms_carved(&self.map, self.rooms@),
                rooms_linked(&self.map, self.rooms@, i as int, start),
                floor_linked_or_later(&self.map, self.rooms@, i as int, start),
                forall|k: int| 0 <= k < self.rooms@.len() ==> piece_of(#[trigger] self.rooms@[k], whole()),
                self.rects@ == old(self).rects@,
                ends.len() == i,
                forall|k: int|
                    0 <= k < ends.len() ==> point_in(self.rooms@[k], (#[trigger] ends[k]).0, ends[k].1) && point_in(
                        self.rooms@[k + 1],
                        ends[k].2,
                        ends[k].3,
                    ),
                self.map.tiles@ == corridors_over(old(self).map.tiles@, MAP_WIDTH as int, ends, ends.len() as int),
            decreases self.rooms@.len() - i,
        {
            let room: Rect = self.rooms[i];
            let next_room: Rect = self.rooms[i + 1];
            proof {
                assert(piece_of(room, whole()));
                assert(piece_of(next_room, whole()));
            }
            let start_x: i32 = room.x1 + (roll_dice(rng, 1, room.x2 - room.x1) - 1);
            let start_y: i32 = room.y1 + (roll_dice(rng, 1, room.y2 - room.y1) - 1);
            let end_x: i32 = next_room.x1 + (roll_dice(rng, 1, next_room.x2 - next_room.x1) - 1);
            let end_y: i32 = next_room.y1 + (roll_dice(rng, 1, next_room.y2 - next_room.y1) - 1);
            let ghost before = self.map;
            self.draw_corridor(start_x, start_y, end_x, end_y);
            proof {
                let rooms = self.rooms@;
                assert(corridor_drawn(&before, &self.map, start_x as int, start_y as int, end_x as int, end_y as int));
                let e = (start_x as int, start_y as int, end_x as int, end_y as int);
                lemma_corridor_added(old(self).map.tiles@, &before, &self.map, ends, e);
                ends = ends.push(e);
                lemma_join_rooms_linked(
                    &before,
                    &self.map,
                    rooms,
                    i as int,
                    start,
                    start_x as int,
                    start_y as int,
                    end_x as int,
                    end_y as int,
                );
                lemma_join_floor_settled(
                    &before,
                    &self.map,
                    rooms,
                    i as int,
                    start,
                    start_x as int,
                    start_y as int,
                    end_x as int,
                    end_y as int,
                );
                assert forall|k: int, j: int|
                    0 <= k < rooms.len() && 0 <= j < self.map.tiles@.len() implies #[trigger] room_cell_carved(
                    &self.map,
                    rooms,
                    k,
                    j,
                ) by {
                    assert(room_cell_carved(&before, rooms, k, j));
                    assert(before.tiles@[j] == TileType::Wall || before.tiles@[j] == TileType::Floor);
                }
                assert forall|j: int| 0 <= j < self.map.tiles@.len() implies (#[trigger] self.map.tiles@[j]
                    == TileType::Wall || self.map.tiles@[j] == TileType::Floor) by {
                    assert(before.tiles@[j] == TileType::Wall || before.tiles@[j] == TileType::Floor);
                }
            }
            i += 1;
        }
        proof {
            assert(corridors_between(self.rooms@, ends));
            assert forall|j: int|
                0 <= j < self.map.tiles@.len() && (#[trigger] self.map.tiles@[j] == TileType::Floor
                    || self.map.tiles@[j] == TileType::DownStairs) implies ground(&self.map).linked(start, j) by {
                assert(floor_cell_settled(&self.map, self.rooms@, i as int, j, start));
                assert(self.map.tiles@[j] == TileType::Wall || self.map.tiles@[j] == TileType::Floor);
                if in_later_room(self.rooms@, i as int, self.map.x_of(j), self.map.y_of(j)) {
                    let k = choose|k: int|
                        i < k < self.rooms@.len() && in_room(
                            #[trigger] self.rooms@[k],
                            self.map.x_of(j),
                            self.map.y_of(j),
                        );
                }
            }
        }
    }

    /// Before any corridor is drawn, the first room is linked to its own
    /// middle, and whatever floor there is lies in a room.
    proof fn lemma_first_room_linked(&self)
        requires
            self.wf(),
            self.rooms@.len() >= 1,
            cave_tiles(self.map.tiles@),
            rooms_carved(&self.map, self.rooms@),
            floor_in_rooms(&self.map, self.rooms@),
            forall|k: int| 0 <= k < self.rooms@.len() ==> piece_of(#[trigger] self.rooms@[k], whole()),
        ensures
            rooms_linked(&self.map, self.rooms@, 0, center_index(self.rooms@[0])),
            floor_linked_or_later(&self.map, self.rooms@, 0, center_index(self.rooms@[0])),
    {
        let first = self.rooms@[0];
        let start = center_index(first);
        let t = ground(&self.map);
        let w = self.map.width as int;
        assert(piece_of(first, whole()));
        let c = first.center_point();
        self.map.lemma_idx_bounds(c.0, c.1);
        t.lemma_linked_here(start);
        assert forall|x: int, y: int|
            first.x1 <= x <= first.x2 - 1 && first.y1 <= y <= first.y2 - 1 implies #[trigger] t.open_at(x, y) by {
            self.map.lemma_idx_bounds(x, y);
            let j = self.map.idx(x, y);
            assert(room_cell_carved(&self.map, self.rooms@, 0, j));
        }
        t.lemma_linked_block(start, first.x1 as int, first.x2 - 1, first.y1 as int, first.y2 - 1, c.0, c.1);
        assert forall|k: int, j: int|
            0 <= k <= 0 && k < self.rooms@.len() && 0 <= j < self.map.tiles@.len() implies #[trigger] room_cell_linked(
            &self.map,
            self.rooms@,
            k,
            j,
            start,
        ) by {
            if in_room(self.rooms@[k], self.map.x_of(j), self.map.y_of(j)) {
                self.map.lemma_cell_of_index(j);
                assert(t.linked(start, crate::map::cell_index(w, self.map.x_of(j), self.map.y_of(j))));
            }
        }
        assert forall|j: int| 0 <= j < self.map.tiles@.len() implies #[trigger] floor_cell_settled(
            &self.map,
            self.rooms@,
            0,
            j,
            start,
        ) by {
            if self.map.tiles@[j] == TileType::Floor {
                let k = choose|k: int|
                    -1 < k < self.rooms@.len() && in_room(
                        #[trigger] self.rooms@[k],
                        self.map.x_of(j),
                        self.map.y_of(j),
                    );
                if k == 0 {
                    assert(room_cell_linked(&self.map, self.rooms@, 0, j, start));
                } else {
                    assert(in_room(self.rooms@[k], self.map.x_of(j), self.map.y_of(j)));
                }
            }
        }
    }

    /// Where the level comes from: `carved` is rock with the rooms carved
    /// out, floor inside them and nowhere else; a corridor leads from each
    /// room to the next, from a point of the one to a point of the other;
    /// and the map shows `carved` with the corridors drawn one after the
    /// other and the stairs in the middle of the last room.
    pub open spec fn built_from(&self, carved: &TileMap, ends: Seq<(int, int, int, int)>) -> bool {
        &&& carved.wf()
        &&& carved.width == MAP_WIDTH
        &&& carved.height == MAP_HEIGHT
        &&& cave_tiles(carved.tiles@)
        &&& rooms_carved(carved, self.rooms@)
        &&& floor_in_rooms(carved, self.rooms@)
        &&& corridors_between(self.rooms@, ends)
        &&& self.map.tiles@ == corridors_over(carved.tiles@, MAP_WIDTH as int, ends, ends.len() as int).update(
            center_index(self.rooms@.last()),
            TileType::DownStairs,
        )
    }

    /// Splits the map into rooms, joins them, and puts the start in the
    /// middle of the first room and the stairs in the middle of the last.
    pub fn build(&mut self, rng: &mut RandomNumberGenerator) -> (r: Result<(), BuildError>)
        requires
            old(self).unbuilt(),
        ensures
            r is Ok,
            final(self).finished(),
            final(self).map.same_shape(&old(self).map),
            final(self).depth == old(self).depth,
            exists|carved: TileMap, ends: Seq<(int, int, int, int)>| #[trigger] final(self).built_from(&carved, ends),
    {
        self.rects.clear();
        self.rects.push(Rect::new(1, 1, self.map.width - 2, self.map.height - 2));
        let first_room: Rect = self.rects[0];
        self.add_subrects(first_room, rng);
        proof {
            lemma_split_ends_apart(self.rects@[0], self.rects@.last(), first_room);
            assert(self.rects@.subrange(0, self.rects@.len() as int) =~= self.rects@);
            lemma_leaves_apart(whole(), self.rects@);
        }
        self.carve_rooms();
        let ghost carved = self.map;
        self.join_rooms(rng);
        let ghost ends = choose|ends: Seq<(int, int, int, int)>| #[trigger]
            corridors_between(self.rooms@, ends) && self.map.tiles@ == corridors_over(
                carved.tiles@,
                MAP_WIDTH as int,
                ends,
                ends.len() as int,
            );
        let first: Rect = self.rooms[0];
        let last: Rect = self.rooms[self.rooms.len() - 1];
        proof {
            assert(piece_of(first, whole()));
            assert(piece_of(last, whole()));
            let fc = first.center_point();
            let lc = last.center_point();
            self.map.lemma_idx_bounds(fc.0, fc.1);
            self.map.lemma_idx_bounds(lc.0, lc.1);
            assert(room_cell_carved(&self.map, self.rooms@, 0, center_index(first)));
            assert(room_cell_carved(&self.map, self.rooms@, self.rooms@.len() - 1, center_index(last)));
        }
        let start: (i32, i32) = first.center();
        self.starting_position = Position { x: start.0, y: start.1 };
        let stairs: (i32, i32) = last.center();
        let ghost joined = self.map;
        self.map.set_tile(stairs.0, stairs.1, TileType::DownStairs);
        proof {
            assert forall|k: int, j: int|
                0 <= k < self.rooms@.len() && 0 <= j < self.map.tiles@.len() implies #[trigger] room_cell_carved(
                &self.map,
                self.rooms@,
                k,
                j,
            ) by {
                assert(room_cell_carved(&joined, self.rooms@, k, j));
            }
            assert(joined.tiles@[center_index(last)] == TileType::Floor);
            crate::map_builder::common::lemma_stairs_keep_joined(
                &joined,
                &self.map,
                center_index(first),
                center_index(last),
            );
            assert(self.built_from(&carved, ends));
        }
        Ok(())
    }
}

} // verus!
