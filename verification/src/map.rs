use vstd::prelude::*;

verus! {

#[derive(PartialEq, Eq, Hash, Copy, Clone, Debug, Structural)]
pub enum TileType {
    Void,
    Placeholder,
    Wall,
    Floor,
    DownStairs,
}

pub const MAP_WIDTH: usize = 80;

pub const MAP_HEIGHT: usize = 43;

pub const MAP_SIZE: usize = MAP_HEIGHT * MAP_WIDTH;

/// A tile blocks movement exactly when it is a wall or the void.
pub open spec fn tile_blocks(t: TileType) -> bool {
    t == TileType::Wall || t == TileType::Void
}

/// Row-major index of the cell `(x, y)` on a map `width` cells wide.
pub open spec fn cell_index(width: int, x: int, y: int) -> int {
    y * width + x
}

/// Every cell inside a `width` by `height` rectangle has an index below
/// `width * height`.
pub proof fn lemma_cell_index_bounds(width: int, height: int, x: int, y: int)
    requires
        0 <= x < width,
        0 <= y < height,
    ensures
        0 <= cell_index(width, x, y) < width * height,
        0 <= y * width <= cell_index(width, x, y),
        cell_index(width, x, y) / width == y,
        cell_index(width, x, y) % width == x,
{
    assert(0 <= y * width && (y + 1) * width <= height * width) by (nonlinear_arith)
        requires
            0 <= y < height,
            0 < width,
    ;
    assert((y + 1) * width == y * width + width) by (nonlinear_arith);
    assert(height * width == width * height) by (nonlinear_arith);
    vstd::arithmetic::div_mod::lemma_fundamental_div_mod_converse(y * width + x, width, y, x);
}

/// Every index below `width * height` is the index of exactly one cell,
/// namely `(i % width, i / width)`.
pub proof fn lemma_index_to_cell(width: int, height: int, i: int)
    requires
        0 < width,
        0 <= i < width * height,
    ensures
        0 <= i % width < width,
        0 <= i / width < height,
        cell_index(width, i % width, i / width) == i,
{
    vstd::arithmetic::div_mod::lemma_fundamental_div_mod(i, width);
    vstd::arithmetic::div_mod::lemma_mod_bound(i, width);
    vstd::arithmetic::div_mod::lemma_div_pos_is_pos(i, width);
    assert(width * (i / width) == (i / width) * width) by (nonlinear_arith);
    if i / width >= height {
        assert((i / width) * width >= height * width) by (nonlinear_arith)
            requires
                i / width >= height,
                width > 0,
        ;
        assert(height * width == width * height) by (nonlinear_arith);
    }
}

/// The tile grid of one dungeon level, stored row by row.
pub struct TileMap {
    pub tiles: Vec<TileType>,
    pub width: i32,
    pub height: i32,
    pub revealed_tiles: Vec<bool>,
    pub visible_tiles: Vec<bool>,
    pub blocked: Vec<bool>,
    pub depth: i32,
}

impl TileMap {
    /// The four per-tile arrays all hold one entry per cell.
    pub open spec fn wf(&self) -> bool {
        &&& self.width > 0
        &&& self.height > 0
        &&& self.width * self.height <= i32::MAX
        &&& self.tiles@.len() == self.width * self.height
        &&& self.revealed_tiles@.len() == self.width * self.height
        &&& self.visible_tiles@.len() == self.width * self.height
        &&& self.blocked@.len() == self.width * self.height
    }

    /// Whether `(x, y)` names a cell of the map.
    pub open spec fn in_bounds(&self, x: int, y: int) -> bool {
        0 <= x < self.width && 0 <= y < self.height
    }

    /// The index of the cell `(x, y)`.
    pub open spec fn idx(&self, x: int, y: int) -> int {
        cell_index(self.width as int, x, y)
    }

    /// The column of the cell with index `i`.
    pub open spec fn x_of(&self, i: int) -> int {
        i % (self.width as int)
    }

    /// The row of the cell with index `i`.
    pub open spec fn y_of(&self, i: int) -> int {
        i / (self.width as int)
    }

    /// The tile at `(x, y)`.
    pub open spec fn at(&self, x: int, y: int) -> TileType {
        self.tiles@[self.idx(x, y)]
    }

    /// Same dimensions and depth as `other`.
    pub open spec fn same_shape(&self, other: &TileMap) -> bool {
        self.width == other.width && self.height == other.height && self.depth == other.depth
    }

    /// Both maps are well formed and differ at most in their tiles.
    pub open spec fn same_frame(&self, other: &TileMap) -> bool {
        &&& self.wf()
        &&& other.wf()
        &&& self.same_shape(other)
        &&& self.revealed_tiles@ == other.revealed_tiles@
        &&& self.visible_tiles@ == other.visible_tiles@
        &&& self.blocked@ == other.blocked@
    }

    /// The index of a cell of the map is an index into its tiles, and leads back to the cell.
    pub proof fn lemma_idx_bounds(&self, x: int, y: int)
        requires
            self.wf(),
            self.in_bounds(x, y),
        ensures
            0 <= self.idx(x, y) < self.tiles@.len(),
            0 <= y * self.width <= self.idx(x, y),
            self.y_of(self.idx(x, y)) == y,
            self.x_of(self.idx(x, y)) == x,
    {
        lemma_cell_index_bounds(self.width as int, self.height as int, x, y);
    }

    /// Every index names exactly one cell inside the map.
    pub proof fn lemma_cell_of_index(&self, i: int)
        requires
            self.wf(),
            0 <= i < self.tiles@.len(),
        ensures
            self.in_bounds(self.x_of(i), self.y_of(i)),
            self.idx(self.x_of(i), self.y_of(i)) == i,
    {
        lemma_index_to_cell(self.width as int, self.height as int, i);
    }

    /// A map of `width` by `height` tiles, all of them `fill_tile`, or void where none is given; nothing is
    /// revealed, visible or blocked.
    pub fn new(width: i32, height: i32, depth: i32, fill_tile: Option<TileType>) -> (map: TileMap)
        requires
            width > 0,
            height > 0,
            width * height <= i32::MAX,
        ensures
            map.wf(),
            map.width == width,
            map.height == height,
            map.depth == depth,
            forall|i: int|
                0 <= i < map.tiles@.len() ==> #[trigger] map.tiles@[i] == (match fill_tile {
                    Some(t) => t,
                    None => TileType::Void,
                }),
            forall|i: int| 0 <= i < map.tiles@.len() ==> !#[trigger] map.revealed_tiles@[i],
            forall|i: int| 0 <= i < map.tiles@.len() ==> !#[trigger] map.visible_tiles@[i],
            forall|i: int| 0 <= i < map.tiles@.len() ==> !#[trigger] map.blocked@[i],
    {
        proof {
            assert(0 < width * height) by (nonlinear_arith)
                requires
                    width > 0,
                    height > 0,
            ;
        }
        let l: usize = (width * height) as usize;
        let fill: TileType = match fill_tile {
            Some(t) => t,
            None => TileType::Void,
        };
        let mut tiles: Vec<TileType> = Vec::new();
        let mut revealed_tiles: Vec<bool> = Vec::new();
        let mut visible_tiles: Vec<bool> = Vec::new();
        let mut blocked: Vec<bool> = Vec::new();
        let mut i: usize = 0;
        while i < l
            invariant
                i <= l,
                tiles@.len() == i,
                revealed_tiles@.len() == i,
                visible_tiles@.len() == i,
                blocked@.len() == i,
                forall|j: int| 0 <= j < i ==> #[trigger] tiles@[j] == fill,
                forall|j: int| 0 <= j < i ==> !#[trigger] revealed_tiles@[j],
                forall|j: int| 0 <= j < i ==> !#[trigger] visible_tiles@[j],
                forall|j: int| 0 <= j < i ==> !#[trigger] blocked@[j],
            decreases l - i,
        {
            tiles.push(fill);
            revealed_tiles.push(false);
            visible_tiles.push(false);
            blocked.push(false);
            i += 1;
        }
        TileMap { tiles, width, height, revealed_tiles, visible_tiles, blocked, depth }
    }

    /// A void map of the standard size.
    pub fn new_default(depth: i32) -> (map: TileMap)
        ensures
            map.wf(),
            map.width == MAP_WIDTH,
            map.height == MAP_HEIGHT,
            map.depth == depth,
            forall|i: int| 0 <= i < map.tiles@.len() ==> #[trigger] map.tiles@[i] == TileType::Void,
            forall|i: int| 0 <= i < map.tiles@.len() ==> !#[trigger] map.revealed_tiles@[i],
            forall|i: int| 0 <= i < map.tiles@.len() ==> !#[trigger] map.visible_tiles@[i],
            forall|i: int| 0 <= i < map.tiles@.len() ==> !#[trigger] map.blocked@[i],
    {
        TileMap::new(MAP_WIDTH as i32, MAP_HEIGHT as i32, depth, None)
    }

    /// The index of the cell `(x, y)`, counted row by row.
    pub fn xy_idx(&self, x: i32, y: i32) -> (idx: usize)
        requires
            self.wf(),
            self.in_bounds(x as int, y as int),
        ensures
            idx == self.idx(x as int, y as int),
            idx < self.tiles@.len(),
            self.x_of(idx as int) == x,
            self.y_of(idx as int) == y,
    {
        proof {
            self.lemma_idx_bounds(x as int, y as int);
        }
        (y as usize * self.width as usize) + x as usize
    }

    /// Writes `t` at `(x, y)` and leaves every other cell as it was.
    pub fn set_tile(&mut self, x: i32, y: i32, t: TileType)
        requires
            old(self).wf(),
            old(self).in_bounds(x as int, y as int),
        ensures
            final(self).wf(),
            final(self).same_shape(old(self)),
            final(self).revealed_tiles@ == old(self).revealed_tiles@,
            final(self).visible_tiles@ == old(self).visible_tiles@,
            final(self).blocked@ == old(self).blocked@,
            final(self).tiles@ == old(self).tiles@.update(old(self).idx(x as int, y as int), t),
            forall|i: int|
                0 <= i < final(self).tiles@.len() ==> #[trigger] final(self).tiles@[i] == (if old(self).x_of(i)
                    == x && old(self).y_of(i) == y {
                    t
                } else {
                    old(self).tiles@[i]
                }),
    {
        let idx = self.xy_idx(x, y);
        proof {
            assert forall|i: int| 0 <= i < self.tiles@.len() && self.x_of(i) == x && self.y_of(i)
                == y implies i == idx by {
                self.lemma_cell_of_index(i);
            }
        }
        self.tiles[idx] = t;
    }

    /// Whether `(x, y)` can be entered: it is a cell of the map and not
    /// blocked.
    pub open spec fn open_cell(&self, x: int, y: int) -> bool {
        self.in_bounds(x, y) && !self.blocked@[self.idx(x, y)]
    }

    /// Whether `(x, y)` can be entered.
    pub fn is_open(&self, x: i32, y: i32) -> (r: bool)
        requires
            self.wf(),
        ensures
            r == self.open_cell(x as int, y as int),
    {
        if x < 0 || x > self.width - 1 || y < 0 || y > self.height - 1 {
            return false;
        }
        let idx = self.xy_idx(x, y);
        !self.blocked[idx]
    }

    /// Marks every wall and every void tile as blocked, and nothing else.
    pub fn populate_blocked(&mut self)
        requires
            old(self).wf(),
        ensures
            final(self).wf(),
            final(self).same_shape(old(self)),
            final(self).tiles@ == old(self).tiles@,
            final(self).revealed_tiles@ == old(self).revealed_tiles@,
            final(self).visible_tiles@ == old(self).visible_tiles@,
            forall|i: int|
                0 <= i < final(self).tiles@.len() ==> #[trigger] final(self).blocked@[i] == tile_blocks(
                    final(self).tiles@[i],
                ),
    {
        let n: usize = self.tiles.len();
        let mut i: usize = 0;
        while i < n
            invariant
                i <= n,
                n == self.tiles@.len(),
                self.wf(),
                self.same_shape(old(self)),
                self.tiles@ == old(self).tiles@,
                self.revealed_tiles@ == old(self).revealed_tiles@,
                self.visible_tiles@ == old(self).visible_tiles@,
                forall|j: int| 0 <= j < i ==> #[trigger] self.blocked@[j] == tile_blocks(self.tiles@[j]),
            decreases n - i,
        {
            let t: TileType = self.tiles[i];
            self.blocked[i] = t == TileType::Wall || t == TileType::Void;
            i += 1;
        }
    }

    /// Whether the tile at `(x, y)` is a wall or the void.
    pub fn is_void_or_wall(&self, x: i32, y: i32) -> (r: bool)
        requires
            self.wf(),
            self.in_bounds(x as int, y as int),
        ensures
            r == tile_blocks(self.at(x as int, y as int)),
    {
        let idx = self.xy_idx(x, y);
        self.tiles[idx] == TileType::Wall || self.tiles[idx] == TileType::Void
    }

    /// The tile at `(x, y)`.
    pub fn tile(&self, x: i32, y: i32) -> (t: TileType)
        requires
            self.wf(),
            self.in_bounds(x as int, y as int),
        ensures
            t == self.at(x as int, y as int),
            t == self.tiles@[self.idx(x as int, y as int)],
    {
        let idx = self.xy_idx(x, y);
        self.tiles[idx]
    }

    /// A copy of the map that shares nothing with `self`.
    pub fn duplicate(&self) -> (copy: TileMap)
        ensures
            copy.same_shape(self),
            copy.tiles@ == self.tiles@,
            copy.revealed_tiles@ == self.revealed_tiles@,
            copy.visible_tiles@ == self.visible_tiles@,
            copy.blocked@ == self.blocked@,
    {
        TileMap {
            tiles: copy_tiles(&self.tiles),
            width: self.width,
            height: self.height,
            revealed_tiles: copy_flags(&self.revealed_tiles),
            visible_tiles: copy_flags(&self.visible_tiles),
            blocked: copy_flags(&self.blocked),
            depth: self.depth,
        }
    }
}

/// An element-by-element copy of a tile vector.
pub fn copy_tiles(src: &Vec<TileType>) -> (dst: Vec<TileType>)
    ensures
        dst@ == src@,
{
    let mut dst: Vec<TileType> = Vec::new();
    let mut i: usize = 0;
    while i < src.len()
        invariant
            i <= src@.len(),
            dst@ == src@.subrange(0, i as int),
        decreases src@.len() - i,
    {
        dst.push(src[i]);
        proof {
            assert(dst@ =~= src@.subrange(0, i + 1));
        }
        i += 1;
    }
    proof {
        assert(dst@ =~= src@);
    }
    dst
}

/// An element-by-element copy of a flag vector.
pub fn copy_flags(src: &Vec<bool>) -> (dst: Vec<bool>)
    ensures
        dst@ == src@,
{
    let mut dst: Vec<bool> = Vec::new();
    let mut i: usize = 0;
    while i < src.len()
        invariant
            i <= src@.len(),
            dst@ == src@.subrange(0, i as int),
        decreases src@.len() - i,
    {
        dst.push(src[i]);
        proof {
            assert(dst@ =~= src@.subrange(0, i + 1));
        }
        i += 1;
    }
    proof {
        assert(dst@ =~= src@);
    }
    dst
}

/// Whether `(x, y)` is a wall of the map; nothing off the map is.
pub open spec fn wall_at(map: &TileMap, x: int, y: int) -> bool {
    map.in_bounds(x, y) && map.at(x, y) == TileType::Wall
}

/// Which of the four cells around `(x, y)` are walls, as a sum: 1 for
/// the one above, 2 for the one below, 4 for the one to the left and 8
/// for the one to the right.
pub open spec fn wall_mask(map: &TileMap, x: int, y: int) -> int {
    (if wall_at(map, x, y - 1) {
        1int
    } else {
        0int
    }) + (if wall_at(map, x, y + 1) {
        2int
    } else {
        0int
    }) + (if wall_at(map, x - 1, y) {
        4int
    } else {
        0int
    }) + (if wall_at(map, x + 1, y) {
        8int
    } else {
        0int
    })
}

/// The box-drawing glyph of code page 437 for a wall with the given
/// walls around it.
pub open spec fn glyph_for(mask: int) -> int {
    if mask == 0 {
        9
    } else if mask == 1 || mask == 2 || mask == 3 {
        186
    } else if mask == 4 || mask == 8 || mask == 12 {
        205
    } else if mask == 5 {
        188
    } else if mask == 6 {
        187
    } else if mask == 7 {
        185
    } else if mask == 9 {
        200
    } else if mask == 10 {
        201
    } else if mask == 11 {
        204
    } else if mask == 13 {
        202
    } else if mask == 14 {
        203
    } else if mask == 15 {
        206
    } else {
        35
    }
}

/// Whether `(x, y)` lies on the map and is a wall.
pub fn is_revealed_and_wall(map: &TileMap, x: i32, y: i32) -> (r: bool)
    requires
        map.wf(),
    ensures
        r == wall_at(map, x as int, y as int),
{
    if x < 0 || x > map.width - 1 || y < 0 || y > map.height - 1 {
        return false;
    }
    let idx = map.xy_idx(x, y);
    map.tiles[idx] == TileType::Wall
}

/// The glyph to draw the wall at `(x, y)` with, so that it joins the
/// walls around it.
pub fn wall_glyph(map: &TileMap, x: i32, y: i32) -> (glyph: u16)
    requires
        map.wf(),
        i32::MIN < x < i32::MAX,
        i32::MIN < y < i32::MAX,
    ensures
        glyph == glyph_for(wall_mask(map, x as int, y as int)),
{
    let mut mask: u8 = 0;
    if is_revealed_and_wall(map, x, y - 1) {
        mask += 1
    }
    if is_revealed_and_wall(map, x, y + 1) {
        mask += 2
    }
    if is_revealed_and_wall(map, x - 1, y) {
        mask += 4
    }
    if is_revealed_and_wall(map, x + 1, y) {
        mask += 8
    }
    match mask {
        0 => 9,
        1 => 186,
        2 => 186,
        3 => 186,
        4 => 205,
        5 => 188,
        6 => 187,
        7 => 185,
        8 => 205,
        9 => 200,
        10 => 201,
        11 => 204,
        12 => 205,
        13 => 202,
        14 => 203,
        15 => 206,
        _ => 35,
    }
}

} // verus!
