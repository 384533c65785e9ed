use crate::components::Position;
use crate::map::{MAP_HEIGHT, MAP_WIDTH, tile_blocks, TileMap, TileType};
use crate::map_builder::common::{
    all_joined, apply_room_to_map, BuildError, corridor_drawn, corridors_between, corridors_over, draw_corridor,
    is_joined, lemma_corridor_added, plain_tiles, point_in, room_tile,
};
use crate::map_builder::simple_map::center_index;
use crate::random::roll_dice;
use crate::rect::Rect;
use rltk::RandomNumberGenerator;
use vstd::prelude::*;

verus! {

/// How often a build tries to place a room.
pub const ROOM_TRIES: i32 = 240;

/// Builds a level by splitting the map into ever smaller quarters and
/// putting rooms into them.
pub struct BspDungeonBuilder {
    pub map: TileMap,
    pub starting_position: Position,
    pub depth: i32,
    pub rooms: Vec<Rect>,
    pub rects: Vec<Rect>,
}

/// Calls `slice::sort_by_key` with the left edge as the key. The contract
/// claims what the documentation of the sort promises: the same
/// rectangles as before, in rising order of their left edge.
#[verifier::external_body]
fn sort_by_left_edge(rooms: &mut Vec<Rect>)
    ensures
        final(rooms)@.to_multiset() == old(rooms)@.to_multiset(),
        forall|j: int, k: int| 0 <= j <= k < final(rooms)@.len() ==> final(rooms)@[j].x1 <= final(rooms)@[k].x1,
{
    rooms.sort_by_key(|room| room.x1);
}

/// The width or height of a quarter of a rectangle that is `extent` wide
/// or high: half of it, and at least 1.
pub open spec fn half_extent(extent: int) -> int {
    if extent / 2 >= 1 {
        extent / 2
    } else {
        1
    }
}

/// The four quarters of `rect`: top left, bottom left, top right and
/// bottom right.
pub open spec fn quarters(rect: Rect) -> Seq<Rect> {
    let hw = half_extent(rect.x2 - rect.x1);
    let hh = half_extent(rect.y2 - rect.y1);
    seq![
        Rect { x1: rect.x1, x2: (rect.x1 + hw) as i32, y1: rect.y1, y2: (rect.y1 + hh) as i32 },
        Rect { x1: rect.x1, x2: (rect.x1 + hw) as i32, y1: (rect.y1 + hh) as i32, y2: (rect.y1 + 2 * hh) as i32 },
        Rect { x1: (rect.x1 + hw) as i32, x2: (rect.x1 + 2 * hw) as i32, y1: rect.y1, y2: (rect.y1 + hh) as i32 },
        Rect {
            x1: (rect.x1 + hw) as i32,
            x2: (rect.x1 + 2 * hw) as i32,
            y1: (rect.y1 + hh) as i32,
            y2: (rect.y1 + 2 * hh) as i32,
        },
    ]
}

/// A rectangle with its corners between 0 and `limit`, at least one cell
/// wide and high.
pub open spec fn within(rect: Rect, limit: int) -> bool {
    &&& 0 <= rect.x1 < rect.x2 <= limit
    &&& 0 <= rect.y1 < rect.y2 <= limit
}

/// A room can be built at `rect`: every cell of the rectangle, widened
/// by two cells to the left, right and top and by one to the bottom,
/// lies off the rim of the map and is void or a wall.
pub open spec fn can_build(map: &TileMap, rect: Rect) -> bool {
    forall|x: int, y: int|
        rect.x1 - 2 <= x <= rect.x2 + 2 && rect.y1 - 2 <= y <= rect.y2 + 1 ==> 1 <= x <= map.width - 2 && 1 <= y
            <= map.height - 2 && tile_blocks(#[trigger] map.at(x, y))
}

/// A room as it is drawn into a quarter.
pub open spec fn room_drawn(room: Rect, from: Rect) -> bool {
    &&& from.x1 <= room.x1 <= from.x1 + 5
    &&& from.y1 <= room.y1 <= from.y1 + 5
    &&& room.x1 + 4 <= room.x2 <= room.x1 + 10
    &&& room.y1 + 4 <= room.y2 <= room.y1 + 10
}

/// The room that four rolls draw into `rect`: a roll of `x_roll` and of
/// `y_roll` on a six-sided die move its corner, and a roll of `w_roll`
/// and of `h_roll` make it that wide and high, but four cells at least.
pub open spec fn room_for(rect: Rect, w_roll: int, h_roll: int, x_roll: int, y_roll: int) -> Rect {
    let w = (if w_roll - 1 > 3 {
        w_roll - 1
    } else {
        3
    }) + 1;
    let h = (if h_roll - 1 > 3 {
        h_roll - 1
    } else {
        3
    }) + 1;
    Rect {
        x1: (rect.x1 + x_roll - 1) as i32,
        x2: (rect.x1 + x_roll - 1 + w) as i32,
        y1: (rect.y1 + y_roll - 1) as i32,
        y2: (rect.y1 + y_roll - 1 + h) as i32,
    }
}

/// The room that four rolls draw into `rect`.
pub fn sub_rect(rect: Rect, w_roll: i32, h_roll: i32, x_roll: i32, y_roll: i32) -> (room: Rect)
    requires
        -0x1000_0000 <= rect.x1 <= 0x1000_0000,
        -0x1000_0000 <= rect.y1 <= 0x1000_0000,
        1 <= w_roll <= 10,
        1 <= h_roll <= 10,
        1 <= x_roll <= 6,
        1 <= y_roll <= 6,
    ensures
        room == room_for(rect, w_roll as int, h_roll as int, x_roll as int, y_roll as int),
{
    let mut result: Rect = rect;
    let w: i32 = (if w_roll - 1 > 3 { w_roll - 1 } else { 3 }) + 1;
    let h: i32 = (if h_roll - 1 > 3 { h_roll - 1 } else { 3 }) + 1;
    result.x1 += x_roll - 1;
    result.y1 += y_roll - 1;
    result.x2 = result.x1 + w;
    result.y2 = result.y1 + h;
    result
}

/// A room with room around it on the map.
pub open spec fn room_placed(room: Rect) -> bool {
    &&& 3 <= room.x1
    &&& room.x1 + 4 <= room.x2 <= MAP_WIDTH - 4
    &&& 3 <= room.y1
    &&& room.y1 + 4 <= room.y2 <= MAP_HEIGHT - 3
}

/// The rectangle that the splitting starts from: the map without a
/// margin of two cells.
pub open spec fn first_rect() -> Rect {
    Rect { x1: 2, x2: (MAP_WIDTH - 3) as i32, y1: 2, y2: (MAP_HEIGHT - 3) as i32 }
}

/// What the first `n` of the rooms leave at `(cx, cy)` of a void map,
/// drawn one after the other.
pub open spec fn rooms_tile(rooms: Seq<Rect>, n: int, cx: int, cy: int) -> TileType
    decreases n,
{
    if n <= 0 {
        TileType::Void
    } else {
        room_tile(rooms[n - 1], cx, cy, rooms_tile(rooms, n - 1, cx, cy))
    }
}

/// Room `k` could be built when its turn came: over the rooms drawn
/// before it, every cell of it, widened by two cells to the left, right
/// and top and by one to the bottom, lies off the rim of the map and is
/// void or a wall.
pub open spec fn room_was_free(rooms: Seq<Rect>, k: int) -> bool {
    forall|x: int, y: int|
        rooms[k].x1 - 2 <= x <= rooms[k].x2 + 2 && rooms[k].y1 - 2 <= y <= rooms[k].y2 + 1 ==> 1 <= x <= MAP_WIDTH
            - 2 && 1 <= y <= MAP_HEIGHT - 2 && tile_blocks(#[trigger] rooms_tile(rooms, k, x, y))
}

/// Room `r`, counted from 1, was drawn into rectangle `j` of the list,
/// which stood in the list when the room's turn came, and the quarters
/// of that rectangle were put on the list for it.
pub open spec fn split_for(rects: Seq<Rect>, rooms: Seq<Rect>, r: int, j: int) -> bool {
    &&& 0 <= j < 1 + 4 * r
    &&& room_drawn(rooms[r - 1], rects[j])
    &&& rects.subrange(1 + 4 * r, 5 + 4 * r) == quarters(rects[j])
}

/// Room `r`, counted from 1, was drawn into a rectangle that stood in
/// the list when its turn came, and that rectangle was quartered for it.
pub open spec fn room_has_split(rects: Seq<Rect>, rooms: Seq<Rect>, r: int) -> bool {
    exists|j: int| #[trigger] split_for(rects, rooms, r, j)
}

/// The rooms and the list of rectangles as placing rooms on a void map
/// leaves them: the list starts with the first rectangle and its
/// quarters, and holds four quarters more for every room; every room was
/// drawn into a rectangle of the list and could be built when its turn
/// came; and the map shows the rooms, drawn in their order.
pub open spec fn rooms_placed(map: &TileMap, rooms: Seq<Rect>, rects: Seq<Rect>) -> bool {
    &&& rects.len() == 5 + 4 * rooms.len()
    &&& rects[0] == first_rect()
    &&& rects.subrange(1, 5) == quarters(first_rect())
    &&& forall|r: int| 1 <= r <= rooms.len() ==> #[trigger] room_has_split(rects, rooms, r)
    &&& forall|k: int| 0 <= k < rooms.len() ==> #[trigger] room_was_free(rooms, k)
    &&& forall|i: int|
        0 <= i < map.tiles@.len() ==> #[trigger] map.tiles@[i] == rooms_tile(
            rooms,
            rooms.len() as int,
            map.x_of(i),
            map.y_of(i),
        )
}

/// What the first rooms leave depends on those rooms alone.
pub proof fn lemma_rooms_tile_prefix(a: Seq<Rect>, b: Seq<Rect>, n: int, cx: int, cy: int)
    requires
        0 <= n <= a.len(),
        n <= b.len(),
        forall|k: int| 0 <= k < n ==> a[k] == b[k],
    ensures
        rooms_tile(a, n, cx, cy) == rooms_tile(b, n, cx, cy),
    decreases n,
{
    if n > 0 {
        lemma_rooms_tile_prefix(a, b, n - 1, cx, cy);
    }
}

/// A room that can be built, once drawn and put on the list with the
/// quarters of the rectangle it was drawn into, keeps the account of the
/// rooms.
pub proof fn lemma_room_added(
    before: &TileMap,
    after: &TileMap,
    placed: Seq<Rect>,
    listed: Seq<Rect>,
    room: Rect,
    j: int,
)
    requires
        before.wf(),
        before.width == MAP_WIDTH,
        before.height == MAP_HEIGHT,
        after.same_frame(before),
        rooms_placed(before, placed, listed),
        can_build(before, room),
        0 <= j < listed.len(),
        room_drawn(room, listed[j]),
        forall|i: int|
            0 <= i < after.tiles@.len() ==> #[trigger] after.tiles@[i] == room_tile(
                room,
                before.x_of(i),
                before.y_of(i),
                before.tiles@[i],
            ),
    ensures
        rooms_placed(after, placed.push(room), listed + quarters(listed[j])),
{
    let rooms = placed.push(room);
    let rects = listed + quarters(listed[j]);
    let n = placed.len() as int;
    assert(rects.subrange(1, 5) =~= listed.subrange(1, 5));
    assert forall|r: int| 1 <= r <= rooms.len() implies #[trigger] room_has_split(rects, rooms, r) by {
        if r <= n {
            assert(room_has_split(listed, placed, r));
            let k = choose|k: int| #[trigger] split_for(listed, placed, r, k);
            assert(rects.subrange(1 + 4 * r, 5 + 4 * r) =~= listed.subrange(1 + 4 * r, 5 + 4 * r));
            assert(split_for(rects, rooms, r, k));
        } else {
            assert(rects.subrange(1 + 4 * r, 5 + 4 * r) =~= quarters(listed[j]));
            assert(split_for(rects, rooms, r, j));
        }
    }
    assert forall|k: int| 0 <= k < rooms.len() implies #[trigger] room_was_free(rooms, k) by {
        assert forall|x: int, y: int|
            rooms[k].x1 - 2 <= x <= rooms[k].x2 + 2 && rooms[k].y1 - 2 <= y <= rooms[k].y2 + 1 implies 1 <= x
                <= MAP_WIDTH - 2 && 1 <= y <= MAP_HEIGHT - 2 && tile_blocks(#[trigger] rooms_tile(rooms, k, x, y)) by {
            lemma_rooms_tile_prefix(rooms, placed, k, x, y);
            if k < n {
                assert(room_was_free(placed, k));
                assert(tile_blocks(rooms_tile(placed, k, x, y)));
            } else {
                assert(tile_blocks(before.at(x, y)));
                before.lemma_idx_bounds(x, y);
            }
        }
    }
    assert forall|i: int| 0 <= i < after.tiles@.len() implies #[trigger] after.tiles@[i] == rooms_tile(
        rooms,
        rooms.len() as int,
        after.x_of(i),
        after.y_of(i),
    ) by {
        lemma_rooms_tile_prefix(rooms, placed, n, before.x_of(i), before.y_of(i));
        assert(before.tiles@[i] == rooms_tile(placed, n, before.x_of(i), before.y_of(i)));
    }
}

/// The rooms are `before` in rising order of their left edge, and the
/// tiles are `tiles` with a corridor drawn from each room to the next.
pub open spec fn rooms_joined(before: Seq<Rect>, tiles: Seq<TileType>, rooms: Seq<Rect>, after: Seq<TileType>) -> bool {
    &&& rooms.to_multiset() == before.to_multiset()
    &&& forall|j: int, k: int| 0 <= j <= k < rooms.len() ==> rooms[j].x1 <= rooms[k].x1
    &&& exists|ends: Seq<(int, int, int, int)>| #[trigger]
        corridors_between(rooms, ends) && after == corridors_over(tiles, MAP_WIDTH as int, ends, ends.len() as int)
}

impl BspDungeonBuilder {
    /// The map has the standard size.
    pub open spec fn wf(&self) -> bool {
        &&& self.map.wf()
        &&& self.map.width == MAP_WIDTH
        &&& self.map.height == MAP_HEIGHT
    }

    /// Nothing has been built yet: the map is void and there are no
    /// rooms.
    pub open spec fn unbuilt(&self) -> bool {
        &&& self.wf()
        &&& self.rooms@.len() == 0
        &&& forall|i: int| 0 <= i < self.map.tiles@.len() ==> #[trigger] self.map.tiles@[i] == TileType::Void
    }

    /// The index of the starting position.
    pub open spec fn start_index(&self) -> int {
        self.map.idx(self.starting_position.x as int, self.starting_position.y as int)
    }

    /// The level is done: the rooms stand in rising order of their left
    /// edge, the player starts in the middle of the first, on floor, the
    /// only stairway down is in the middle of the last, no placeholder is
    /// left, and a route leads from the start to every floor tile and to
    /// the stairs.
    pub open spec fn finished(&self) -> bool {
        &&& self.wf()
        &&& 1 <= self.rooms@.len() <= ROOM_TRIES
        &&& forall|k: int| 0 <= k < self.rooms@.len() ==> room_placed(#[trigger] self.rooms@[k])
        &&& forall|j: int, k: int| 0 <= j <= k < self.rooms@.len() ==> self.rooms@[j].x1 <= self.rooms@[k].x1
        &&& (self.starting_position.x as int, self.starting_position.y as int) == self.rooms@[0].center_point()
        &&& forall|i: int|
            0 <= i < self.map.tiles@.len() ==> (#[trigger] self.map.tiles@[i] == TileType::DownStairs <==> i
                == center_index(self.rooms@.last()))
        &&& forall|i: int| 0 <= i < self.map.tiles@.len() ==> #[trigger] self.map.tiles@[i] != TileType::Placeholder
        &&& self.map.tiles@[self.start_index()] == TileType::Floor
        &&& all_joined(&self.map, self.start_index())
    }

    /// Where the level comes from: `placed` are the rooms as they were
    /// placed on the void map `drawn`, with the rectangles of the list;
    /// the rooms are those in rising order of their left edge; `joined`
    /// are the tiles of `drawn` with a corridor from each room to the
    /// next; and the map shows `joined`, with the stairs in the middle of
    /// the last room where the level is done.
    pub open spec fn built_from(&self, placed: Seq<Rect>, drawn: &TileMap, joined: Seq<TileType>, done: bool) -> bool {
        &&& drawn.wf()
        &&& drawn.width == MAP_WIDTH
        &&& drawn.height == MAP_HEIGHT
        &&& rooms_placed(drawn, placed, self.rects@)
        &&& rooms_joined(placed, drawn.tiles@, self.rooms@, joined)
        &&& self.map.tiles@ == (if done {
            joined.update(center_index(self.rooms@.last()), TileType::DownStairs)
        } else {
            joined
        })
    }

    /// What ends a build without a level: no room, or an exit that is no
    /// exit, because the stairs lie on the start or because no route
    /// leads from the start to some floor tile or to the stairs.
    pub open spec fn failure(&self) -> Option<BuildError> {
        if self.rooms@.len() == 0 {
            Some(BuildError::NoRooms)
        } else if center_index(self.rooms@[0]) == center_index(self.rooms@.last())
            || !crate::map_builder::common::joined_within(
            &self.map,
            center_index(self.rooms@[0]),
            crate::map_builder::common::NO_CAP as int,
        ) {
            Some(BuildError::NoExit)
        } else {
            None
        }
    }

    #[allow(dead_code)]
    pub fn new(depth: i32) -> (builder: BspDungeonBuilder)
        ensures
            builder.unbuilt(),
            builder.depth == depth,
            builder.map.depth == depth,
            builder.rects@.len() == 0,
            builder.starting_position == (Position { x: 0, y: 0 }),
    {
        BspDungeonBuilder {
            map: TileMap::new(MAP_WIDTH as i32, MAP_HEIGHT as i32, depth, None),
            starting_position: Position { x: 0, y: 0 },
            depth,
            rooms: Vec::new(),
            rects: Vec::new(),
        }
    }

    /// An independent copy of the map.
    pub fn get_map(&self) -> (map: TileMap)
        ensures
            map.same_shape(&self.map),
            map.tiles@ == self.map.tiles@,
            map.revealed_tiles@ == self.map.revealed_tiles@,
            map.visible_tiles@ == self.map.visible_tiles@,
            map.blocked@ == self.map.blocked@,
    {
        self.map.duplicate()
    }

    pub fn get_starting_position(&self) -> (position: Position)
        ensures
            position == self.starting_position,
    {
        self.starting_position
    }

    /// The rooms in which to spawn: all but the first, where the player
    /// starts.
    pub fn spawn(&self) -> (rooms: Vec<Rect>)
        ensures
            rooms@ == (if self.rooms@.len() == 0 {
                self.rooms@
            } else {
                self.rooms@.subrange(1, self.rooms@.len() as int)
            }),
    {
        let mut rooms: Vec<Rect> = Vec::new();
        let mut k: usize = 1;
        while k < self.rooms.len()
            invariant
                1 <= k,
                k <= self.rooms@.len() || self.rooms@.len() == 0,
                self.rooms@.len() > 0 ==> rooms@ == self.rooms@.subrange(1, k as int),
                self.rooms@.len() == 0 ==> rooms@.len() == 0,
            decreases self.rooms@.len() - k,
        {
            rooms.push(self.rooms[k]);
            proof {
                assert(rooms@ =~= self.rooms@.subrange(1, k + 1));
            }
            k += 1;
        }
        proof {
            if self.rooms@.len() == 0 {
                assert(rooms@ =~= self.rooms@);
            }
        }
        rooms
    }

    /// Adds the four quarters of `rect` to the list of rectangles.
    pub fn add_subrects(&mut self, rect: Rect)
        requires
            0 <= rect.x1 < rect.x2 <= 0x1000_0000,
            0 <= rect.y1 < rect.y2 <= 0x1000_0000,
        ensures
            final(self).rects@ == old(self).rects@ + quarters(rect),
            final(self).map == old(self).map,
            final(self).rooms == old(self).rooms,
            final(self).depth == old(self).depth,
            final(self).starting_position == old(self).starting_position,
            forall|limit: int|
                within(rect, limit) ==> forall|k: int| 0 <= k < 4 ==> within(#[trigger] quarters(rect)[k], limit + 1),
    {
        let width: i32 = rect.x2 - rect.x1;
        let height: i32 = rect.y2 - rect.y1;
        let half_width: i32 = if width / 2 >= 1 {
            width / 2
        } else {
            1
        };
        let half_height: i32 = if height / 2 >= 1 {
            height / 2
        } else {
            1
        };
        let ghost before = self.rects@;
        self.rects.push(Rect::new(rect.x1, rect.y1, half_width, half_height));
        self.rects.push(Rect::new(rect.x1, rect.y1 + half_height, half_width, half_height));
        self.rects.push(Rect::new(rect.x1 + half_width, rect.y1, half_width, half_height));
        self.rects.push(Rect::new(rect.x1 + half_width, rect.y1 + half_height, half_width, half_height));
        proof {
            assert(self.rects@ =~= before + quarters(rect));
        }
    }

    /// One of the rectangles, drawn at random.
    pub fn get_random_rect(&self, rng: &mut RandomNumberGenerator) -> (rect: Rect)
        requires
            1 <= self.rects@.len() < i32::MAX,
        ensures
            self.rects@.contains(rect),
            self.rects@.len() == 1 ==> rect == self.rects@[0],
    {
        if self.rects.len() == 1 {
            return self.rects[0];
        }
        let idx: usize = (roll_dice(rng, 1, self.rects.len() as i32) - 1) as usize;
        self.rects[idx]
    }

    /// A room of random size drawn into `rect`: its corner up to five
    /// cells right of and below the corner of `rect`, its width and height
    /// between 4 and 10 cells.
    pub fn get_random_sub_rect(&self, rect: Rect, rng: &mut RandomNumberGenerator) -> (room: Rect)
        requires
            0 <= rect.x1 < rect.x2 <= 0x1000_0000,
            0 <= rect.y1 < rect.y2 <= 0x1000_0000,
        ensures
            room_drawn(room, rect),
            room.x2 - room.x1 <= (if rect.x2 - rect.x1 > 4 { rect.x2 - rect.x1 } else { 4 }),
            room.y2 - room.y1 <= (if rect.y2 - rect.y1 > 4 { rect.y2 - rect.y1 } else { 4 }),
    {
        let width: i32 = rect.x2 - rect.x1;
        let height: i32 = rect.y2 - rect.y1;
        let w_roll: i32 = roll_dice(rng, 1, if width < 10 { width } else { 10 });
        let h_roll: i32 = roll_dice(rng, 1, if height < 10 { height } else { 10 });
        let x_roll: i32 = roll_dice(rng, 1, 6);
        let y_roll: i32 = roll_dice(rng, 1, 6);
        sub_rect(rect, w_roll, h_roll, x_roll, y_roll)
    }

    /// Whether a room can be built at `rect`.
    pub fn is_possible(&self, rect: Rect) -> (r: bool)
        requires
            self.wf(),
            -0x1000_0000 <= rect.x1 <= 0x1000_0000,
            -0x1000_0000 <= rect.x2 <= 0x1000_0000,
            -0x1000_0000 <= rect.y1 <= 0x1000_0000,
            -0x1000_0000 <= rect.y2 <= 0x1000_0000,
        ensures
            r == can_build(&self.map, rect),
    {
        let x_lo: i32 = rect.x1 - 2;
        let x_hi: i32 = rect.x2 + 2;
        let y_lo: i32 = rect.y1 - 2;
        let y_hi: i32 = rect.y2 + 1;
        let mut y: i32 = y_lo;
        while y <= y_hi
            invariant
                self.wf(),
                x_lo == rect.x1 - 2,
                x_hi == rect.x2 + 2,
                y_lo == rect.y1 - 2,
                y_hi == rect.y2 + 1,
                y_lo <= y,
                y <= y_hi + 1 || y == y_lo,
                -0x1000_0002 <= x_lo,
                x_hi <= 0x1000_0002,
                -0x1000_0002 <= y_lo,
                y_hi <= 0x1000_0002,
                forall|cx: int, cy: int|
                    x_lo <= cx <= x_hi && y_lo <= cy < y ==> 1 <= cx <= self.map.width - 2 && 1 <= cy
                        <= self.map.height - 2 && tile_blocks(#[trigger] self.map.at(cx, cy)),
            decreases y_hi + 1 - y,
        {
            let mut x: i32 = x_lo;
            while x <= x_hi
                invariant
                    self.wf(),
                    x_lo == rect.x1 - 2,
                    x_hi == rect.x2 + 2,
                    y_lo == rect.y1 - 2,
                    y_hi == rect.y2 + 1,
                    y_lo <= y <= y_hi,
                    x_lo <= x,
                    x <= x_hi + 1 || x == x_lo,
                    -0x1000_0002 <= x_lo,
                    x_hi <= 0x1000_0002,
                    -0x1000_0002 <= y_lo,
                    y_hi <= 0x1000_0002,
                    forall|cx: int, cy: int|
                        x_lo <= cx <= x_hi && y_lo <= cy < y ==> 1 <= cx <= self.map.width - 2 && 1 <= cy
                            <= self.map.height - 2 && tile_blocks(#[trigger] self.map.at(cx, cy)),
                    forall|cx: int|
                        x_lo <= cx < x ==> 1 <= cx <= self.map.width - 2 && 1 <= y <= self.map.height - 2
                            && tile_blocks(#[trigger] self.map.at(cx, y as int)),
                decreases x_hi + 1 - x,
            {
                if x > self.map.width - 2 || y > self.map.height - 2 || x < 1 || y < 1 {
                    proof {
                        assert(!can_build(&self.map, rect)) by {
                            if can_build(&self.map, rect) {
                                assert(tile_blocks(self.map.at(x as int, y as int)));
                            }
                        }
                    }
                    return false;
                }
                if !self.map.is_void_or_wall(x, y) {
                    proof {
                        assert(!can_build(&self.map, rect)) by {
                            if can_build(&self.map, rect) {
                                assert(tile_blocks(self.map.at(x as int, y as int)));
                            }
                        }
                    }
                    return false;
                }
                x += 1;
            }
            y += 1;
        }
        true
    }

    pub fn draw_corridor(&mut self, x1: i32, y1: i32, x2: i32, y2: i32)
        requires
            old(self).wf(),
            crate::map_builder::common::corridor_fits(&old(self).map, x1 as int, y1 as int, x2 as int, y2 as int),
        ensures
            final(self).wf(),
            final(self).map.same_frame(&old(self).map),
            final(self).rooms == old(self).rooms,
            final(self).rects == old(self).rects,
            final(self).depth == old(self).depth,
            final(self).starting_position == old(self).starting_position,
            forall|i: int|
                0 <= i < final(self).map.tiles@.len() ==> #[trigger] final(self).map.tiles@[i]
                    == crate::map_builder::common::corridor_tile(
                    x1 as int,
                    y1 as int,
                    x2 as int,
                    y2 as int,
                    old(self).map.x_of(i),
                    old(self).map.y_of(i),
                    old(self).map.tiles@[i],
                ),
    {
        draw_corridor(&mut self.map, x1, y1, x2, y2);
    }

    /// Starts the list of rectangles anew with the map less its margin
    /// and the four quarters of that, then tries `ROOM_TRIES` times to
    /// draw a room into a rectangle picked from the list at random; where
    /// the room can be built it is, and the quarters of the rectangle are
    /// put on the list.
    pub fn place_rooms(&mut self, rng: &mut RandomNumberGenerator)
        requires
            old(self).unbuilt(),
        ensures
            final(self).wf(),
            final(self).map.same_frame(&old(self).map),
            final(self).depth == old(self).depth,
            final(self).rooms@.len() <= ROOM_TRIES,
            plain_tiles(final(self).map.tiles@),
            forall|k: int| 0 <= k < final(self).rooms@.len() ==> room_placed(#[trigger] final(self).rooms@[k]),
            forall|k: int|
                0 <= k < final(self).rooms@.len() ==> final(self).map.tiles@[center_index(
                    #[trigger] final(self).rooms@[k],
                )] == TileType::Floor,
            rooms_placed(&final(self).map, final(self).rooms@, final(self).rects@),
    {
        self.rects.clear();
        self.rects.push(Rect::new(2, 2, self.map.width - 5, self.map.height - 5));
        let first_room: Rect = self.rects[0];
        self.add_subrects(first_room);
        proof {
            assert forall|k: int| 0 <= k < self.rects@.len() implies within(#[trigger] self.rects@[k], 100) by {
                if k >= 1 {
                    assert(self.rects@[k] == quarters(first_room)[k - 1]);
                    assert(within(first_room, 99));
                }
            }
            assert(self.rects@.subrange(1, 5) =~= quarters(first_rect()));
            assert(rooms_placed(&self.map, self.rooms@, self.rects@));
        }
        let mut n_rooms: i32 = 0;
        while n_rooms < ROOM_TRIES
            invariant
                self.wf(),
                old(self).wf(),
                self.map.same_frame(&old(self).map),
                self.depth == old(self).depth,
                0 <= n_rooms <= ROOM_TRIES,
                self.rooms@.len() <= n_rooms,
                1 <= self.rects@.len() <= 5 + 4 * n_rooms,
                rooms_placed(&self.map, self.rooms@, self.rects@),
                forall|k: int| 0 <= k < self.rects@.len() ==> within(#[trigger] self.rects@[k], 100 + n_rooms),
                plain_tiles(self.map.tiles@),
                forall|k: int| 0 <= k < self.rooms@.len() ==> room_placed(#[trigger] self.rooms@[k]),
                forall|k: int|
                    0 <= k < self.rooms@.len() ==> self.map.tiles@[center_index(#[trigger] self.rooms@[k])]
                        == TileType::Floor,
            decreases ROOM_TRIES - n_rooms,
        {
            let rect: Rect = self.get_random_rect(rng);
            let ghost at = choose|k: int| 0 <= k < self.rects@.len() && self.rects@[k] == rect;
            proof {
                assert(within(self.rects@[at], 100 + n_rooms));
            }
            let candidate: Rect = self.get_random_sub_rect(rect, rng);
            if self.is_possible(candidate) {
                let ghost before = self.map;
                let ghost placed = self.rooms@;
                let ghost listed = self.rects@;
                proof {
                    assert(tile_blocks(before.at(candidate.x1 - 2, candidate.y1 - 2)));
                    assert(tile_blocks(before.at(candidate.x2 + 2, candidate.y2 + 1)));
                    assert(room_placed(candidate));
                }
                apply_room_to_map(&mut self.map, &candidate);
                self.rooms.push(candidate);
                self.add_subrects(rect);
                proof {
                    lemma_room_added(&before, &self.map, placed, listed, candidate, at);
                    assert forall|k: int| 0 <= k < self.rects@.len() implies within(
                        #[trigger] self.rects@[k],
                        100 + n_rooms + 1,
                    ) by {
                        if k < listed.len() {
                            assert(self.rects@[k] == listed[k]);
                            assert(within(listed[k], 100 + n_rooms));
                        } else {
                            assert(self.rects@[k] == quarters(rect)[k - listed.len()]);
                            assert(within(rect, 100 + n_rooms));
                        }
                    }
                    assert forall|k: int| 0 <= k < self.rooms@.len() implies self.map.tiles@[center_index(
                        #[trigger] self.rooms@[k],
                    )] == TileType::Floor by {
                        let room = self.rooms@[k];
                        let rc = room.center_point();
                        before.lemma_idx_bounds(rc.0, rc.1);
                        if k < placed.len() {
                            assert(room == placed[k]);
                            assert(room_placed(room));
                            assert(before.tiles@[center_index(room)] == TileType::Floor);
                            if candidate.x1 <= rc.0 <= candidate.x2 + 1 && candidate.y1 <= rc.1 <= candidate.y2 + 1 {
                                assert(tile_blocks(before.at(rc.0, rc.1)));
                            }
                        }
                    }
                }
            }
            n_rooms += 1;
        }
    }

    /// Sorts the rooms by their left edge and joins each to the next by a
    /// corridor between two points drawn at random, one in each room.
    pub fn join_rooms(&mut self, rng: &mut RandomNumberGenerator)
        requires
            old(self).wf(),
            plain_tiles(old(self).map.tiles@),
            old(self).rooms@.len() <= ROOM_TRIES,
            forall|k: int| 0 <= k < old(self).rooms@.len() ==> room_placed(#[trigger] old(self).rooms@[k]),
            forall|k: int|
                0 <= k < old(self).rooms@.len() ==> old(self).map.tiles@[center_index(
                    #[trigger] old(self).rooms@[k],
                )] == TileType::Floor,
        ensures
            final(self).wf(),
            final(self).map.same_frame(&old(self).map),
            final(self).depth == old(self).depth,
            final(self).rooms@.len() == old(self).rooms@.len(),
            plain_tiles(final(self).map.tiles@),
            forall|k: int| 0 <= k < final(self).rooms@.len() ==> room_placed(#[trigger] final(self).rooms@[k]),
            forall|j: int, k: int|
                0 <= j <= k < final(self).rooms@.len() ==> final(self).rooms@[j].x1 <= final(self).rooms@[k].x1,
            forall|k: int|
                0 <= k < final(self).rooms@.len() ==> final(self).map.tiles@[center_index(
                    #[trigger] final(self).rooms@[k],
                )] == TileType::Floor,
            final(self).rects@ == old(self).rects@,
            rooms_joined(old(self).rooms@, old(self).map.tiles@, final(self).rooms@, final(self).map.tiles@),
    {
        let ghost unsorted = self.rooms@;
        let ghost mut ends: Seq<(int, int, int, int)> = Seq::empty();
        sort_by_left_edge(&mut self.rooms);
        proof {
            unsorted.to_multiset_ensures();
            self.rooms@.to_multiset_ensures();
            assert forall|k: int| 0 <= k < self.rooms@.len() implies room_placed(#[trigger] self.rooms@[k])
                && self.map.tiles@[center_index(self.rooms@[k])] == TileType::Floor by {
                let room = self.rooms@[k];
                assert(self.rooms@.contains(room));
                assert(self.rooms@.to_multiset().count(room) > 0);
                assert(unsorted.contains(room));
                let j = choose|j: int| 0 <= j < unsorted.len() && unsorted[j] == room;
                assert(room_placed(unsorted[j]));
            }
        }
        let mut i: usize = 0;
        while i + 1 < self.rooms.len()
            invariant
                i <= ROOM_TRIES,
                self.wf(),
                old(self).wf(),
                self.map.same_frame(&old(self).map),
                self.depth == old(self).depth,
                self.rooms@.len() == old(self).rooms@.len(),
                self.rooms@.len() <= ROOM_TRIES,
                self.rects@ == old(self).rects@,
                self.rooms@.to_multiset() == old(self).rooms@.to_multiset(),
                ends.len() == i,
                i + 1 <= self.rooms@.len() || (self.rooms@.len() == 0 && i == 0),
                forall|k: int|
                    0 <= k < ends.len() ==> point_in(self.rooms@[k], (#[trigger] ends[k]).0, ends[k].1) && point_in(
                        self.rooms@[k + 1],
                        ends[k].2,
                        ends[k].3,
                    ),
                self.map.tiles@ == corridors_over(old(self).map.tiles@, MAP_WIDTH as int, ends, ends.len() as int),
                plain_tiles(self.map.tiles@),
                forall|k: int| 0 <= k < self.rooms@.len() ==> room_placed(#[trigger] self.rooms@[k]),
                forall|j: int, k: int| 0 <= j <= k < self.rooms@.len() ==> self.rooms@[j].x1 <= self.rooms@[k].x1,
                forall|k: int|
                    0 <= k < self.rooms@.len() ==> self.map.tiles@[center_index(#[trigger] self.rooms@[k])]
                        == TileType::Floor,
            decreases self.rooms@.len() - i,
        {
            let room: Rect = self.rooms[i];
            let next_room: Rect = self.rooms[i + 1];
            proof {
                assert(room_placed(room));
                assert(room_placed(next_room));
            }
            let start_x: i32 = room.x1 + (roll_dice(rng, 1, room.x2 - room.x1) - 1);
            let start_y: i32 = room.y1 + (roll_dice(rng, 1, room.y2 - room.y1) - 1);
            let end_x: i32 = next_room.x1 + (roll_dice(rng, 1, next_room.x2 - next_room.x1) - 1);
            let end_y: i32 = next_room.y1 + (roll_dice(rng, 1, next_room.y2 - next_room.y1) - 1);
            let ghost before = self.map.tiles@;
            let ghost under = self.map;
            self.draw_corridor(start_x, start_y, end_x, end_y);
            proof {
                let e = (start_x as int, start_y as int, end_x as int, end_y as int);
                assert(corridor_drawn(&under, &self.map, e.0, e.1, e.2, e.3));
                lemma_corridor_added(old(self).map.tiles@, &under, &self.map, ends, e);
                ends = ends.push(e);
                assert forall|k: int| 0 <= k < self.rooms@.len() implies self.map.tiles@[center_index(
                    #[trigger] self.rooms@[k],
                )] == TileType::Floor by {
                    let rc = self.rooms@[k].center_point();
                    assert(room_placed(self.rooms@[k]));
                    self.map.lemma_idx_bounds(rc.0, rc.1);
                    assert(before[center_index(self.rooms@[k])] == TileType::Floor);
                }
            }
            i += 1;
        }
        proof {
            assert(corridors_between(self.rooms@, ends));
        }
    }

    /// Places the rooms, joins them, and puts the start in the middle of
    /// the first room and the stairs in the middle of the last. Fails
    /// where no room could be placed, and where a corridor missed its
    /// room, so that part of the level cannot be reached from the start.
    pub fn build(&mut self, rng: &mut RandomNumberGenerator) -> (r: Result<(), BuildError>)
        requires
            old(self).unbuilt(),
        ensures
            final(self).wf(),
            final(self).map.same_shape(&old(self).map),
            final(self).depth == old(self).depth,
            match r {
                Ok(()) => final(self).finished() && final(self).failure() is None,
                Err(e) => final(self).failure() == Some(e),
            },
            exists|placed: Seq<Rect>, drawn: TileMap, joined: Seq<TileType>| #[trigger]
                final(self).built_from(placed, &drawn, joined, r is Ok),
            r is Err ==> plain_tiles(final(self).map.tiles@),
    {
        self.place_rooms(rng);
        let ghost placed = self.rooms@;
        let ghost drawn = self.map;
        self.join_rooms(rng);
        let ghost joined = self.map.tiles@;
        let r = self.place_ends();
        proof {
            assert(self.built_from(placed, &drawn, joined, r is Ok));
        }
        r
    }

    /// Puts the start in the middle of the first room and the stairs in
    /// the middle of the last, and makes sure that the whole level can be
    /// reached from the start. Fails with `NoRooms` where there is no
    /// room, and with `NoExit` where the stairs would lie on the start or
    /// part of the level is cut off; then no stairs are put down.
    pub fn place_ends(&mut self) -> (r: Result<(), BuildError>)
        requires
            old(self).wf(),
            plain_tiles(old(self).map.tiles@),
            old(self).rooms@.len() <= ROOM_TRIES,
            forall|k: int| 0 <= k < old(self).rooms@.len() ==> room_placed(#[trigger] old(self).rooms@[k]),
            forall|j: int, k: int|
                0 <= j <= k < old(self).rooms@.len() ==> old(self).rooms@[j].x1 <= old(self).rooms@[k].x1,
            forall|k: int|
                0 <= k < old(self).rooms@.len() ==> old(self).map.tiles@[center_index(
                    #[trigger] old(self).rooms@[k],
                )] == TileType::Floor,
        ensures
            final(self).wf(),
            final(self).map.same_frame(&old(self).map),
            final(self).depth == old(self).depth,
            final(self).rooms@ == old(self).rooms@,
            final(self).rects@ == old(self).rects@,
            old(self).rooms@.len() == 0 ==> r == Err::<(), BuildError>(BuildError::NoRooms) && final(self).map.tiles@
                == old(self).map.tiles@,
            old(self).rooms@.len() > 0 ==> (final(self).starting_position.x as int, final(self).starting_position.y as int)
                == old(self).rooms@[0].center_point(),
            match r {
                Ok(()) => final(self).finished() && final(self).failure() is None && final(self).map.tiles@ == old(self).map.tiles@.update(center_index(old(self).rooms@.last()), TileType::DownStairs),
                Err(e) => final(self).failure() == Some(e) && final(self).map.tiles@ == old(self).map.tiles@,
            },
    {
        if self.rooms.len() == 0 {
            return Err(BuildError::NoRooms);
        }
        let first: Rect = self.rooms[0];
        let last: Rect = self.rooms[self.rooms.len() - 1];
        proof {
            assert(room_placed(first));
            assert(room_placed(last));
            let fc = first.center_point();
            let lc = last.center_point();
            self.map.lemma_idx_bounds(fc.0, fc.1);
            self.map.lemma_idx_bounds(lc.0, lc.1);
            assert(self.map.tiles@[center_index(first)] == TileType::Floor);
        }
        let start: (i32, i32) = first.center();
        self.starting_position = Position { x: start.0, y: start.1 };
        let stairs: (i32, i32) = last.center();
        let start_idx: usize = self.map.xy_idx(start.0, start.1);
        let exit_idx: usize = self.map.xy_idx(stairs.0, stairs.1);
        if start_idx == exit_idx || !is_joined(&self.map, start_idx) {
            return Err(BuildError::NoExit);
        }
        let ghost joined = self.map;
        self.map.set_tile(stairs.0, stairs.1, TileType::DownStairs);
        proof {
            crate::map_builder::common::lemma_stairs_keep_joined(
                &joined,
                &self.map,
                start_idx as int,
                exit_idx as int,
            );
            assert(crate::map_builder::common::ground(&self.map).blocked
                =~= crate::map_builder::common::ground(&joined).blocked);
            assert forall|i: int|
                0 <= i < self.map.tiles@.len() && (#[trigger] self.map.tiles@[i] == TileType::Floor
                    || self.map.tiles@[i] == TileType::DownStairs) implies crate::map_builder::common::ground(
                &self.map,
            ).connected(start_idx as int, i, crate::map_builder::common::NO_CAP as int) by {
                assert(joined.tiles@[i] == TileType::Floor || joined.tiles@[i] == TileType::DownStairs);
            }
        }
        Ok(())
    }
}

} // verus!
