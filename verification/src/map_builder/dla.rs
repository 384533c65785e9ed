use crate::components::Position;
use crate::map::{MAP_HEIGHT, MAP_WIDTH, TileMap, TileType};
use crate::map_builder::cellular_automata::cave_tiles;
use crate::map_builder::cellular_automata::is_inner;
use crate::map_builder::common::{
    exit_placed, in_play, lemma_floor_beside_start, one_step, rimmed, BuildError, count_floor, count_tiles,
    generate_voronoi_spawn_regions, in_stroke, paint, place_exit, playable, region_members, stagger, staggered,
    Symmetry,
};
use crate::random::roll_dice;
use rltk::RandomNumberGenerator;
use std::collections::HashMap;
use vstd::prelude::*;

verus! {

/// The most particles that one build releases.
pub const MAX_PARTICLES: u32 = 1000000;

/// The most steps that one particle may stagger.
pub const MAX_WALK: u32 = 10000000;

#[derive(PartialEq, Eq, Copy, Clone, Debug, Structural)]
pub enum DLAAlgorithm {
    WalkInwards,
    WalkOutwards,
    CentralAttractor,
}

/// Builds a cave by diffusion-limited aggregation: particles wander until
/// they touch the floor that is there already, and stick.
pub struct DLABuilder {
    pub map: TileMap,
    pub starting_position: Position,
    pub depth: i32,
    pub noise_areas: HashMap<i32, Vec<usize>>,
    pub algorithm: DLAAlgorithm,
    pub brush_size: i32,
    pub symmetry: Symmetry,
    pub floor_percent: u32,
    pub name: String,
    pub noise_seed: u64,
}

/// The points of the line from `(x1, y1)` to `(x2, y2)`, as Bresenham's
/// algorithm draws it.
pub uninterp spec fn bresenham_line(x1: i32, y1: i32, x2: i32, y2: i32) -> Seq<(i32, i32)>;

/// Calls `rltk::line2d` with `LineAlg::Bresenham`. The contract names the
/// points that it returns and claims of them only that the line is not
/// empty and ends in its end point, which the function appends itself.
#[verifier::external_body]
fn line2d_bresenham(x1: i32, y1: i32, x2: i32, y2: i32) -> (line: Vec<(i32, i32)>)
    requires
        -0x1000_0000 <= x1 <= 0x1000_0000,
        -0x1000_0000 <= y1 <= 0x1000_0000,
        -0x1000_0000 <= x2 <= 0x1000_0000,
        -0x1000_0000 <= y2 <= 0x1000_0000,
    ensures
        line@ == bresenham_line(x1, y1, x2, y2),
        line@.len() >= 1,
        line@[line@.len() - 1] == (x2, y2),
{
    let points = rltk::line2d(rltk::LineAlg::Bresenham, rltk::Point::new(x1, y1), rltk::Point::new(x2, y2));
    points.iter().map(|p| (p.x, p.y)).collect()
}

/// Where a particle that follows `path` from `(x, y)` comes to rest: it
/// takes the points of the path one after the other for as long as it
/// stands on a wall, and rests on the last point it left; it stops early
/// at a point off the map.
pub open spec fn drawn_in(map: &TileMap, path: Seq<(i32, i32)>, x: int, y: int, px: int, py: int, k: int) -> (int, int)
    decreases path.len() - k,
{
    if 0 <= k < path.len() && map.in_bounds(x, y) && map.at(x, y) == TileType::Wall {
        drawn_in(map, path, path[k].0 as int, path[k].1 as int, x, y, k + 1)
    } else {
        (px, py)
    }
}

/// What a particle that came to rest at `(x, y)` leaves of tile `i`: a
/// stroke of floor around the point where it lies in play, and the map
/// as it was otherwise.
pub open spec fn stuck_tile(map: &TileMap, symmetry: Symmetry, brush_size: int, x: int, y: int, i: int) -> TileType {
    if in_play(map.width as int, map.height as int, x, y) && in_stroke(
        map.width as int,
        map.height as int,
        symmetry,
        brush_size,
        x,
        y,
        map.x_of(i),
        map.y_of(i),
    ) {
        TileType::Floor
    } else {
        map.tiles@[i]
    }
}

/// A particle went along `walk` from `(x, y)`, one step at a time, over
/// tiles of kind `over` up to the last point of the walk, where it stands
/// now.
pub open spec fn wandered(map: &TileMap, over: TileType, walk: Seq<(int, int)>, x: int, y: int) -> bool {
    &&& 1 <= walk.len() <= MAX_WALK + 1
    &&& walk[0] == (x, y)
    &&& forall|k: int|
        0 <= k < walk.len() - 1 ==> map.at((#[trigger] walk[k]).0, walk[k].1) == over && one_step(
            map.width as int,
            map.height as int,
            walk[k].0,
            walk[k].1,
            walk[k + 1].0,
            walk[k + 1].1,
        )
}

/// Two builders work alike: by the same algorithm, with the same brush
/// and symmetry, towards the same share of floor, from the same start.
pub open spec fn same_settings(a: &DLABuilder, b: &DLABuilder) -> bool {
    &&& a.algorithm == b.algorithm
    &&& a.brush_size == b.brush_size
    &&& a.symmetry == b.symmetry
    &&& a.floor_percent == b.floor_percent
    &&& a.starting_position == b.starting_position
}

/// Stage `k + 1` comes from stage `k` by one particle: the floor of
/// stage `k` falls short of the wanted share, and the particle came to
/// rest where one can and left its stroke.
pub open spec fn particle_between(stages: Seq<DLABuilder>, k: int) -> bool {
    let before = stages[k];
    let after = stages[k + 1];
    &&& same_settings(&before, &after)
    &&& after.map.same_frame(&before.map)
    &&& count_tiles(before.map.tiles@, TileType::Floor, before.map.tiles@.len() as int) < before.map.tiles@.len()
        * before.floor_percent / 100
    &&& exists|x: int, y: int| #[trigger] before.released(&after.map, x, y)
}

/// The stages of growing a cave: the first is rock with the seed, a
/// cross of five floor tiles in the middle of the map, and each further
/// one comes from the one before by one particle.
pub open spec fn grown(stages: Seq<DLABuilder>) -> bool {
    &&& 1 <= stages.len() <= MAX_PARTICLES + 1
    &&& stages[0].wf()
    &&& stages[0].starting_position.x == MAP_WIDTH / 2
    &&& stages[0].starting_position.y == MAP_HEIGHT / 2
    &&& forall|i: int|
        0 <= i < stages[0].map.tiles@.len() ==> #[trigger] stages[0].map.tiles@[i] == ({
            let dx = stages[0].map.x_of(i) - MAP_WIDTH / 2;
            let dy = stages[0].map.y_of(i) - MAP_HEIGHT / 2;
            if (dx == 0 && -1 <= dy <= 1) || (dy == 0 && -1 <= dx <= 1) {
                TileType::Floor
            } else {
                TileType::Wall
            }
        })
    &&& forall|k: int| 0 <= k < stages.len() - 1 ==> #[trigger] particle_between(stages, k)
}

/// Tiles as growing leaves them: the last stage of growing a cave as
/// `builder` does, with at least the wanted share of all tiles floor;
/// walls and floor, walls all around the rim, floor in the middle of the
/// map and right of it.
pub open spec fn grown_cave(tiles: Seq<TileType>, builder: &DLABuilder) -> bool {
    let middle = (MAP_HEIGHT / 2) * MAP_WIDTH + MAP_WIDTH / 2;
    &&& tiles.len() == MAP_WIDTH * MAP_HEIGHT
    &&& forall|i: int|
        0 <= i < tiles.len() ==> #[trigger] tiles[i] == TileType::Wall || (tiles[i] == TileType::Floor && is_inner(
            MAP_WIDTH as int,
            MAP_HEIGHT as int,
            i,
        ))
    &&& tiles[middle as int] == TileType::Floor
    &&& tiles[middle + 1] == TileType::Floor
    &&& count_tiles(tiles, TileType::Floor, tiles.len() as int) >= tiles.len() * builder.floor_percent / 100
    &&& exists|stages: Seq<DLABuilder>| #[trigger]
        grown(stages) && stages.last().map.tiles@ == tiles && same_settings(&stages.last(), builder)
}

impl DLABuilder {
    /// Where a particle of the builder's algorithm can come to rest.
    /// Walking inwards, it rests in play on a cell that is no wall, where
    /// it was released, or on a wall one step from a cell that is none.
    /// Walking outwards, it rests in play on a cell that is no floor: the
    /// starting position, or a cell one step from floor. Drawn to the
    /// centre, it rests where the line from a cell in play to the
    /// starting position leaves the wall.
    pub open spec fn may_rest(&self, x: int, y: int) -> bool {
        let w = self.map.width as int;
        let h = self.map.height as int;
        match self.algorithm {
            DLAAlgorithm::WalkInwards => in_play(w, h, x, y) && (self.map.at(x, y) != TileType::Wall
                || exists|tx: int, ty: int| #[trigger]
                one_step(w, h, x, y, tx, ty) && in_play(w, h, tx, ty) && self.map.at(tx, ty) != TileType::Wall),
            DLAAlgorithm::WalkOutwards => in_play(w, h, x, y) && self.map.at(x, y) != TileType::Floor && ((x, y) == (
                self.starting_position.x as int,
                self.starting_position.y as int,
            ) || exists|px: int, py: int| #[trigger]
                one_step(w, h, px, py, x, y) && in_play(w, h, px, py) && self.map.at(px, py) == TileType::Floor),
            DLAAlgorithm::CentralAttractor => exists|sx: i32, sy: i32|
                in_play(w, h, sx as int, sy as int) && (x, y) == #[trigger] drawn_in(
                    &self.map,
                    bresenham_line(sx, sy, self.starting_position.x, self.starting_position.y),
                    sx as int,
                    sy as int,
                    sx as int,
                    sy as int,
                    0,
                ),
        }
    }

    /// A particle of the builder's algorithm has somewhere to wander: in
    /// play there is a wall to walk inwards over, or the starting position
    /// is floor to walk outwards over. One that is drawn to the centre
    /// never wanders.
    pub open spec fn may_wander(&self) -> bool {
        match self.algorithm {
            DLAAlgorithm::WalkInwards => exists|x: int, y: int|
                in_play(self.map.width as int, self.map.height as int, x, y) && #[trigger] self.map.at(x, y)
                    == TileType::Wall,
            DLAAlgorithm::WalkOutwards => self.map.at(
                self.starting_position.x as int,
                self.starting_position.y as int,
            ) == TileType::Floor,
            DLAAlgorithm::CentralAttractor => false,
        }
    }

    /// Where a particle can rest and what it leaves depends on the map
    /// and on how the builder works alone.
    pub proof fn lemma_released_by(&self, other: &DLABuilder, after: &TileMap, x: int, y: int)
        requires
            self.map == other.map,
            same_settings(self, other),
            other.released(after, x, y),
        ensures
            self.released(after, x, y),
    {
        assert(other.may_rest(x, y));
        match self.algorithm {
            DLAAlgorithm::WalkInwards => {
                if self.map.at(x, y) == TileType::Wall {
                    let (tx, ty) = choose|tx: int, ty: int| #[trigger]
                        one_step(other.map.width as int, other.map.height as int, x, y, tx, ty) && in_play(
                            other.map.width as int,
                            other.map.height as int,
                            tx,
                            ty,
                        ) && other.map.at(tx, ty) != TileType::Wall;
                    assert(one_step(self.map.width as int, self.map.height as int, x, y, tx, ty));
                }
            },
            DLAAlgorithm::WalkOutwards => {
                if (x, y) != (self.starting_position.x as int, self.starting_position.y as int) {
                    let (px, py) = choose|px: int, py: int| #[trigger]
                        one_step(other.map.width as int, other.map.height as int, px, py, x, y) && in_play(
                            other.map.width as int,
                            other.map.height as int,
                            px,
                            py,
                        ) && other.map.at(px, py) == TileType::Floor;
                    assert(one_step(self.map.width as int, self.map.height as int, px, py, x, y));
                }
            },
            DLAAlgorithm::CentralAttractor => {
                let (sx, sy) = choose|sx: i32, sy: i32|
                    in_play(other.map.width as int, other.map.height as int, sx as int, sy as int) && (x, y)
                        == #[trigger] drawn_in(
                        &other.map,
                        bresenham_line(sx, sy, other.starting_position.x, other.starting_position.y),
                        sx as int,
                        sy as int,
                        sx as int,
                        sy as int,
                        0,
                    );
                assert((x, y) == drawn_in(
                    &self.map,
                    bresenham_line(sx, sy, self.starting_position.x, self.starting_position.y),
                    sx as int,
                    sy as int,
                    sx as int,
                    sy as int,
                    0,
                ));
            },
        }
        assert(self.may_rest(x, y));
    }

    /// A particle came to rest at `(x, y)`, where one can, and `after` is
    /// the map with what it left.
    pub open spec fn released(&self, after: &TileMap, x: int, y: int) -> bool {
        &&& self.may_rest(x, y)
        &&& forall|i: int|
            0 <= i < after.tiles@.len() ==> #[trigger] after.tiles@[i] == stuck_tile(
                &self.map,
                self.symmetry,
                self.brush_size as int,
                x,
                y,
                i,
            )
    }

    /// The map has the standard size.
    pub open spec fn wf(&self) -> bool {
        &&& self.map.wf()
        &&& self.map.width == MAP_WIDTH
        &&& self.map.height == MAP_HEIGHT
    }

    /// Nothing has been built yet: the map is solid rock.
    pub open spec fn unbuilt(&self) -> bool {
        &&& self.wf()
        &&& forall|i: int| 0 <= i < self.map.tiles@.len() ==> #[trigger] self.map.tiles@[i] == TileType::Wall
    }

    /// The index of the starting position.
    pub open spec fn start_index(&self) -> int {
        self.map.idx(self.starting_position.x as int, self.starting_position.y as int)
    }

    pub fn new(name: String, depth: i32, algorithm: DLAAlgorithm, brush_size: i32, symmetry: Symmetry) -> (builder:
        DLABuilder)
        ensures
            builder.unbuilt(),
            builder.depth == depth,
            builder.map.depth == depth,
            builder.algorithm == algorithm,
            builder.brush_size == brush_size,
            builder.symmetry == symmetry,
            builder.floor_percent == 25,
            builder.name == name,
            builder.starting_position == (Position { x: 0, y: 0 }),
            builder.noise_areas@.len() == 0,
    {
        DLABuilder {
            map: TileMap::new(MAP_WIDTH as i32, MAP_HEIGHT as i32, depth, Some(TileType::Wall)),
            starting_position: Position { x: 0, y: 0 },
            depth,
            noise_areas: HashMap::new(),
            algorithm,
            brush_size,
            symmetry,
            floor_percent: 25,
            name,
            noise_seed: 0,
        }
    }

    #[allow(dead_code)]
    pub fn walk_inwards(depth: i32) -> (builder: DLABuilder)
        ensures
            builder.unbuilt(),
            builder.depth == depth,
            builder.map.depth == depth,
            builder.algorithm == DLAAlgorithm::WalkInwards,
            builder.brush_size == 1,
            builder.symmetry == Symmetry::Neither,
            builder.floor_percent == 25,
    {
        DLABuilder::new("Walk Inwards".to_string(), depth, DLAAlgorithm::WalkInwards, 1, Symmetry::Neither)
    }

    #[allow(dead_code)]
    pub fn walk_outwards(depth: i32) -> (builder: DLABuilder)
        ensures
            builder.unbuilt(),
            builder.depth == depth,
            builder.map.depth == depth,
            builder.algorithm == DLAAlgorithm::WalkOutwards,
            builder.brush_size == 2,
            builder.symmetry == Symmetry::Neither,
            builder.floor_percent == 25,
    {
        DLABuilder::new("Walk Outwards".to_string(), depth, DLAAlgorithm::WalkOutwards, 2, Symmetry::Neither)
    }

    #[allow(dead_code)]
    pub fn central_attractor(depth: i32) -> (builder: DLABuilder)
        ensures
            builder.unbuilt(),
            builder.depth == depth,
            builder.map.depth == depth,
            builder.algorithm == DLAAlgorithm::CentralAttractor,
            builder.brush_size == 2,
            builder.symmetry == Symmetry::Neither,
            builder.floor_percent == 25,
    {
        DLABuilder::new("Central Attractor".to_string(), depth, DLAAlgorithm::CentralAttractor, 2, Symmetry::Neither)
    }

    #[allow(dead_code)]
    pub fn insectoid(depth: i32) -> (builder: DLABuilder)
        ensures
            builder.unbuilt(),
            builder.depth == depth,
            builder.map.depth == depth,
            builder.algorithm == DLAAlgorithm::CentralAttractor,
            builder.brush_size == 2,
            builder.symmetry == Symmetry::Horizontal,
            builder.floor_percent == 25,
    {
        DLABuilder::new("Insectoid".to_string(), depth, DLAAlgorithm::CentralAttractor, 2, Symmetry::Horizontal)
    }

    /// An independent copy of the map.
    pub fn get_map(&self) -> (map: TileMap)
        ensures
            map.same_shape(&self.map),
            map.tiles@ == self.map.tiles@,
            map.revealed_tiles@ == self.map.revealed_tiles@,
            map.visible_tiles@ == self.map.visible_tiles@,
            map.blocked@ == self.map.blocked@,
    {
        self.map.duplicate()
    }

    pub fn get_starting_position(&self) -> (position: Position)
        ensures
            position == self.starting_position,
    {
        self.starting_position
    }

    /// Staggers from `(x, y)` for as long as the particle stands on a tile
    /// of kind `over`, and returns where it came to rest and where it
    /// stood one step before; nothing, if it is still going after
    /// `MAX_WALK` steps.
    pub fn wander(&self, rng: &mut RandomNumberGenerator, x: i32, y: i32, over: TileType) -> (rest: Option<
        ((i32, i32), (i32, i32)),
    >)
        requires
            self.wf(),
            2 <= x <= self.map.width - 2,
            2 <= y <= self.map.height - 2,
        ensures
            match rest {
                Some((at, before)) => {
                    &&& 2 <= at.0 <= self.map.width - 2
                    &&& 2 <= at.1 <= self.map.height - 2
                    &&& 2 <= before.0 <= self.map.width - 2
                    &&& 2 <= before.1 <= self.map.height - 2
                    &&& self.map.at(at.0 as int, at.1 as int) != over
                    &&& self.map.at(x as int, y as int) != over ==> at == (x, y) && before == (x, y)
                    &&& self.map.at(x as int, y as int) == over ==> self.map.at(before.0 as int, before.1 as int)
                        == over && one_step(
                        self.map.width as int,
                        self.map.height as int,
                        before.0 as int,
                        before.1 as int,
                        at.0 as int,
                        at.1 as int,
                    )
                },
                None => self.map.at(x as int, y as int) == over,
            },
            exists|walk: Seq<(int, int)>| #[trigger]
                wandered(&self.map, over, walk, x as int, y as int) && (match rest {
                    Some((at, before)) => walk.last() == (at.0 as int, at.1 as int) && (walk.len() >= 2
                        ==> walk[walk.len() - 2] == (before.0 as int, before.1 as int)),
                    None => walk.len() == MAX_WALK + 1 && self.map.at(walk.last().0, walk.last().1) == over,
                }),
    {
        let mut digger_x: i32 = x;
        let mut digger_y: i32 = y;
        let mut prev_x: i32 = x;
        let mut prev_y: i32 = y;
        let mut steps: u32 = 0;
        let ghost mut walk: Seq<(int, int)> = seq![(x as int, y as int)];
        while self.map.tile(digger_x, digger_y) == over
            invariant
                self.wf(),
                2 <= x <= self.map.width - 2,
                2 <= y <= self.map.height - 2,
                2 <= digger_x <= self.map.width - 2,
                2 <= digger_y <= self.map.height - 2,
                2 <= prev_x <= self.map.width - 2,
                2 <= prev_y <= self.map.height - 2,
                steps <= MAX_WALK,
                walk.len() == steps + 1,
                wandered(&self.map, over, walk, x as int, y as int),
                walk.last() == (digger_x as int, digger_y as int),
                steps > 0 ==> walk[walk.len() - 2] == (prev_x as int, prev_y as int),
                steps == 0 ==> digger_x == x && digger_y == y && prev_x == x && prev_y == y,
                steps > 0 ==> self.map.at(x as int, y as int) == over && self.map.at(prev_x as int, prev_y as int)
                    == over && one_step(
                    self.map.width as int,
                    self.map.height as int,
                    prev_x as int,
                    prev_y as int,
                    digger_x as int,
                    digger_y as int,
                ),
            decreases MAX_WALK - steps,
        {
            if steps >= MAX_WALK {
                return None;
            }
            prev_x = digger_x;
            prev_y = digger_y;
            let stagger_direction: i32 = roll_dice(rng, 1, 4);
            let to: (i32, i32) = stagger(digger_x, digger_y, stagger_direction, self.map.width, self.map.height);
            digger_x = to.0;
            digger_y = to.1;
            steps += 1;
            proof {
                assert(staggered(
                    prev_x as int,
                    prev_y as int,
                    stagger_direction as int,
                    self.map.width as int,
                    self.map.height as int,
                ) == (digger_x as int, digger_y as int));
                let longer = walk.push((digger_x as int, digger_y as int));
                assert forall|k: int| 0 <= k < longer.len() - 1 implies self.map.at(
                    (#[trigger] longer[k]).0,
                    longer[k].1,
                ) == over && one_step(
                    self.map.width as int,
                    self.map.height as int,
                    longer[k].0,
                    longer[k].1,
                    longer[k + 1].0,
                    longer[k + 1].1,
                ) by {
                    if k < walk.len() - 1 {
                        assert(longer[k] == walk[k] && longer[k + 1] == walk[k + 1]);
                    } else {
                        assert(longer[k] == (prev_x as int, prev_y as int));
                    }
                }
                walk = longer;
            }
        }
        Some(((digger_x, digger_y), (prev_x, prev_y)))
    }

    /// Follows `path` from `(x, y)` for as long as the particle stands on
    /// a wall, and returns the last point it left.
    pub fn draw_in(&self, path: &Vec<(i32, i32)>, x: i32, y: i32) -> (rest: (i32, i32))
        requires
            self.wf(),
            self.map.in_bounds(x as int, y as int),
        ensures
            (rest.0 as int, rest.1 as int) == drawn_in(&self.map, path@, x as int, y as int, x as int, y as int, 0),
            self.map.in_bounds(rest.0 as int, rest.1 as int),
            rest == (x, y) || self.map.at(rest.0 as int, rest.1 as int) == TileType::Wall,
    {
        let mut digger_x: i32 = x;
        let mut digger_y: i32 = y;
        let mut prev_x: i32 = x;
        let mut prev_y: i32 = y;
        let mut k: usize = 0;
        while k < path.len() && self.map.width > digger_x && digger_x >= 0 && digger_y >= 0 && self.map.height
            > digger_y && self.map.tile(digger_x, digger_y) == TileType::Wall
            invariant
                self.wf(),
                k <= path@.len(),
                self.map.in_bounds(prev_x as int, prev_y as int),
                (prev_x, prev_y) == (x, y) || self.map.at(prev_x as int, prev_y as int) == TileType::Wall,
                drawn_in(&self.map, path@, x as int, y as int, x as int, y as int, 0) == drawn_in(
                    &self.map,
                    path@,
                    digger_x as int,
                    digger_y as int,
                    prev_x as int,
                    prev_y as int,
                    k as int,
                ),
            decreases path@.len() - k,
        {
            prev_x = digger_x;
            prev_y = digger_y;
            digger_x = path[k].0;
            digger_y = path[k].1;
            k += 1;
        }
        (prev_x, prev_y)
    }

    /// Where a particle released at `(x, y)` comes to rest when it is
    /// drawn along the straight line to the starting position.
    pub fn attract(&self, x: i32, y: i32) -> (rest: (i32, i32))
        requires
            self.wf(),
            self.map.in_bounds(x as int, y as int),
            self.map.in_bounds(self.starting_position.x as int, self.starting_position.y as int),
        ensures
            (rest.0 as int, rest.1 as int) == drawn_in(
                &self.map,
                bresenham_line(x, y, self.starting_position.x, self.starting_position.y),
                x as int,
                y as int,
                x as int,
                y as int,
                0,
            ),
            self.map.in_bounds(rest.0 as int, rest.1 as int),
            rest == (x, y) || self.map.at(rest.0 as int, rest.1 as int) == TileType::Wall,
    {
        let path: Vec<(i32, i32)> = line2d_bresenham(x, y, self.starting_position.x, self.starting_position.y);
        self.draw_in(&path, x, y)
    }

    /// Carves the tile in the middle of the map and the four beside it.
    pub fn carve_seed(&mut self)
        requires
            old(self).wf(),
            cave_tiles(old(self).map.tiles@),
            rimmed(&old(self).map),
        ensures
            final(self).wf(),
            final(self).map.same_frame(&old(self).map),
            final(self).depth == old(self).depth,
            final(self).algorithm == old(self).algorithm,
            final(self).brush_size == old(self).brush_size,
            final(self).symmetry == old(self).symmetry,
            final(self).floor_percent == old(self).floor_percent,
            final(self).starting_position.x == MAP_WIDTH / 2,
            final(self).starting_position.y == MAP_HEIGHT / 2,
            cave_tiles(final(self).map.tiles@),
            rimmed(&final(self).map),
            forall|i: int|
                0 <= i < final(self).map.tiles@.len() ==> #[trigger] final(self).map.tiles@[i] == ({
                    let dx = old(self).map.x_of(i) - MAP_WIDTH / 2;
                    let dy = old(self).map.y_of(i) - MAP_HEIGHT / 2;
                    if (dx == 0 && -1 <= dy <= 1) || (dy == 0 && -1 <= dx <= 1) {
                        TileType::Floor
                    } else {
                        old(self).map.tiles@[i]
                    }
                }),
    {
        let center_x: i32 = self.map.width / 2;
        let center_y: i32 = self.map.height / 2;
        self.starting_position = Position { x: center_x, y: center_y };
        self.map.set_tile(center_x, center_y, TileType::Floor);
        self.map.set_tile(center_x - 1, center_y, TileType::Floor);
        self.map.set_tile(center_x + 1, center_y, TileType::Floor);
        self.map.set_tile(center_x, center_y - 1, TileType::Floor);
        self.map.set_tile(center_x, center_y + 1, TileType::Floor);
    }

    /// Releases one particle and paints a stroke of floor where it comes
    /// to rest. Fails with `StepLimit`, the map left as it was, where the
    /// particle is still wandering after `MAX_WALK` steps.
    pub fn release_particle(&mut self, rng: &mut RandomNumberGenerator) -> (r: Result<(), BuildError>)
        requires
            old(self).wf(),
            cave_tiles(old(self).map.tiles@),
            rimmed(&old(self).map),
            old(self).starting_position.x == MAP_WIDTH / 2,
            old(self).starting_position.y == MAP_HEIGHT / 2,
        ensures
            final(self).wf(),
            final(self).map.same_frame(&old(self).map),
            final(self).depth == old(self).depth,
            final(self).algorithm == old(self).algorithm,
            final(self).brush_size == old(self).brush_size,
            final(self).symmetry == old(self).symmetry,
            final(self).floor_percent == old(self).floor_percent,
            final(self).starting_position == old(self).starting_position,
            cave_tiles(final(self).map.tiles@),
            rimmed(&final(self).map),
            forall|i: int|
                0 <= i < final(self).map.tiles@.len() && old(self).map.tiles@[i] == TileType::Floor
                    ==> #[trigger] final(self).map.tiles@[i] == TileType::Floor,
            r is Err ==> r == Err::<(), BuildError>(BuildError::StepLimit) && final(self).map.tiles@ == old(self).map.tiles@,
            r is Ok ==> exists|x: int, y: int| #[trigger] old(self).released(&final(self).map, x, y),
            !old(self).may_wander() ==> r is Ok,
    {
        let at: (i32, i32);
        match self.algorithm {
            DLAAlgorithm::WalkInwards => {
                let digger_x: i32 = roll_dice(rng, 1, self.map.width - 3) + 1;
                let digger_y: i32 = roll_dice(rng, 1, self.map.height - 3) + 1;
                match self.wander(rng, digger_x, digger_y, TileType::Wall) {
                    None => {
                        proof {
                            assert(in_play(
                                self.map.width as int,
                                self.map.height as int,
                                digger_x as int,
                                digger_y as int,
                            ));
                            assert(self.map.at(digger_x as int, digger_y as int) == TileType::Wall);
                        }
                        return Err(BuildError::StepLimit);
                    },
                    Some(rest) => {
                        at = rest.1;
                        proof {
                            if self.map.at(digger_x as int, digger_y as int) == TileType::Wall {
                                assert(one_step(
                                    self.map.width as int,
                                    self.map.height as int,
                                    at.0 as int,
                                    at.1 as int,
                                    rest.0.0 as int,
                                    rest.0.1 as int,
                                ));
                            }
                            assert(self.may_rest(at.0 as int, at.1 as int));
                        }
                    },
                }
            },
            DLAAlgorithm::WalkOutwards => {
                let digger_x: i32 = self.starting_position.x;
                let digger_y: i32 = self.starting_position.y;
                match self.wander(rng, digger_x, digger_y, TileType::Floor) {
                    None => {
                        return Err(BuildError::StepLimit);
                    },
                    Some(rest) => {
                        at = rest.0;
                        proof {
                            if self.map.at(digger_x as int, digger_y as int) == TileType::Floor {
                                assert(one_step(
                                    self.map.width as int,
                                    self.map.height as int,
                                    rest.1.0 as int,
                                    rest.1.1 as int,
                                    at.0 as int,
                                    at.1 as int,
                                ));
                            }
                            assert(self.may_rest(at.0 as int, at.1 as int));
                        }
                    },
                }
            },
            DLAAlgorithm::CentralAttractor => {
                let digger_x: i32 = roll_dice(rng, 1, self.map.width - 3) + 1;
                let digger_y: i32 = roll_dice(rng, 1, self.map.height - 3) + 1;
                at = self.attract(digger_x, digger_y);
                proof {
                    assert(in_play(self.map.width as int, self.map.height as int, digger_x as int, digger_y as int));
                    assert(self.may_rest(at.0 as int, at.1 as int));
                }
            },
        }
        if at.0 < 2 || at.0 > self.map.width - 2 || at.1 < 2 || at.1 > self.map.height - 2 {
            proof {
                assert(old(self).released(&self.map, at.0 as int, at.1 as int));
            }
            return Ok(());
        }
        let ghost before = self.map;
        paint(&mut self.map, self.symmetry, self.brush_size, at.0, at.1, None);
        proof {
            assert forall|i: int| 0 <= i < self.map.tiles@.len() implies (#[trigger] self.map.tiles@[i]
                == TileType::Wall || self.map.tiles@[i] == TileType::Floor) by {
                assert(before.tiles@[i] == TileType::Wall || before.tiles@[i] == TileType::Floor);
            }
            assert forall|i: int|
                0 <= i < self.map.tiles@.len() && !(1 <= self.map.x_of(i) <= self.map.width - 2 && 1
                    <= self.map.y_of(i) <= self.map.height - 2) implies #[trigger] self.map.tiles@[i]
                == TileType::Wall by {
                assert(before.tiles@[i] == TileType::Wall);
                before.lemma_cell_of_index(i);
            }
            assert(old(self).released(&self.map, at.0 as int, at.1 as int));
        }
        Ok(())
    }

    /// Carves a seed in the middle of the map and releases particles
    /// until the wanted share of the map is floor. Gives up after
    /// `MAX_PARTICLES` particles, or where one wanders for too long, as
    /// none does that is drawn to the centre.
    pub fn grow(&mut self, rng: &mut RandomNumberGenerator) -> (r: Result<(), BuildError>)
        requires
            old(self).unbuilt(),
        ensures
            final(self).wf(),
            final(self).map.same_frame(&old(self).map),
            final(self).depth == old(self).depth,
            final(self).algorithm == old(self).algorithm,
            final(self).brush_size == old(self).brush_size,
            final(self).symmetry == old(self).symmetry,
            final(self).floor_percent == old(self).floor_percent,
            final(self).starting_position.x == MAP_WIDTH / 2,
            final(self).starting_position.y == MAP_HEIGHT / 2,
            cave_tiles(final(self).map.tiles@),
            rimmed(&final(self).map),
            final(self).map.tiles@[final(self).start_index()] == TileType::Floor,
            final(self).map.tiles@[final(self).start_index() + 1] == TileType::Floor,
            match r {
                Ok(()) => count_tiles(final(self).map.tiles@, TileType::Floor, final(self).map.tiles@.len() as int)
                    >= final(self).map.tiles@.len() * final(self).floor_percent / 100,
                Err(e) => e == BuildError::StepLimit && count_tiles(
                    final(self).map.tiles@,
                    TileType::Floor,
                    final(self).map.tiles@.len() as int,
                ) < final(self).map.tiles@.len() * final(self).floor_percent / 100,
            },
            exists|stages: Seq<DLABuilder>| #[trigger]
                grown(stages) && stages.last().map.tiles@ == final(self).map.tiles@ && same_settings(
                    &stages.last(),
                    final(self),
                ) && (r is Err && final(self).algorithm == DLAAlgorithm::CentralAttractor ==> stages.len()
                    == MAX_PARTICLES + 1),
            old(self).floor_percent == 0 ==> r is Ok,
    {
        proof {
            assert(rimmed(&self.map));
        }
        self.carve_seed();
        let ghost mut stages: Seq<DLABuilder> = seq![*self];
        proof {
            assert forall|i: int| 0 <= i < self.map.tiles@.len() implies #[trigger] self.map.tiles@[i] == ({
                let dx = self.map.x_of(i) - MAP_WIDTH / 2;
                let dy = self.map.y_of(i) - MAP_HEIGHT / 2;
                if (dx == 0 && -1 <= dy <= 1) || (dy == 0 && -1 <= dx <= 1) {
                    TileType::Floor
                } else {
                    TileType::Wall
                }
            }) by {
                assert(old(self).map.tiles@[i] == TileType::Wall);
            }
            assert(grown(stages));
        }
        let start_idx: usize = self.map.xy_idx(self.starting_position.x, self.starting_position.y);
        let total_tiles: i32 = self.map.width * self.map.height;
        let desired_floor_tiles: u64 = total_tiles as u64 * self.floor_percent as u64 / 100;
        let mut floor_tile_count: usize = count_floor(&self.map);
        let mut released: u32 = 0;
        while (floor_tile_count as u64) < desired_floor_tiles
            invariant
                self.wf(),
                old(self).wf(),
                self.map.same_frame(&old(self).map),
                self.depth == old(self).depth,
                self.algorithm == old(self).algorithm,
                self.brush_size == old(self).brush_size,
                self.symmetry == old(self).symmetry,
                self.floor_percent == old(self).floor_percent,
                self.starting_position.x == MAP_WIDTH / 2,
                self.starting_position.y == MAP_HEIGHT / 2,
                start_idx == self.start_index(),
                start_idx < self.map.tiles@.len(),
                cave_tiles(self.map.tiles@),
                rimmed(&self.map),
                self.map.tiles@[start_idx as int] == TileType::Floor,
                self.map.tiles@[start_idx + 1] == TileType::Floor,
                released <= MAX_PARTICLES,
                grown(stages),
                stages.len() == released + 1,
                stages.last().map == self.map,
                same_settings(&stages.last(), self),
                self.floor_percent == 0 ==> released == 0,
                desired_floor_tiles == self.map.tiles@.len() * self.floor_percent / 100,
                floor_tile_count == count_tiles(self.map.tiles@, TileType::Floor, self.map.tiles@.len() as int),
            decreases MAX_PARTICLES - released,
        {
            proof {
                if self.floor_percent == 0 {
                    assert(self.map.tiles@.len() * 0 == 0) by (nonlinear_arith);
                    assert(desired_floor_tiles == 0);
                }
            }
            if released >= MAX_PARTICLES {
                return Err(BuildError::StepLimit);
            }
            let ghost before = *self;
            match self.release_particle(rng) {
                Err(e) => {
                    proof {
                        assert(stages.last().map.tiles@ == self.map.tiles@);
                    }
                    return Err(e);
                },
                Ok(()) => {},
            }
            proof {
                let longer = stages.push(*self);
                let k = stages.len() - 1;
                let (x, y) = choose|x: int, y: int| #[trigger] before.released(&self.map, x, y);
                assert(longer[k] == stages[k] && longer[k + 1] == *self);
                stages[k].lemma_released_by(&before, &self.map, x, y);
                assert(particle_between(longer, k));
                assert forall|m: int| 0 <= m < longer.len() - 1 implies #[trigger] particle_between(longer, m) by {
                    if m < k {
                        assert(particle_between(stages, m));
                        assert(longer[m] == stages[m] && longer[m + 1] == stages[m + 1]);
                    }
                }
                assert(longer[0] == stages[0]);
                stages = longer;
            }
            released += 1;
            floor_tile_count = count_floor(&self.map);
        }
        Ok(())
    }

    /// Grows the cave; then prunes what is cut off from the start in the
    /// middle of the map and puts the stairs on the farthest floor tile.
    /// Fails only where growing gives up: a grown cave always has an
    /// exit.
    pub fn build(&mut self, rng: &mut RandomNumberGenerator) -> (r: Result<(), BuildError>)
        requires
            old(self).unbuilt(),
        ensures
            final(self).wf(),
            final(self).map.same_shape(&old(self).map),
            final(self).depth == old(self).depth,
            final(self).algorithm == old(self).algorithm,
            final(self).brush_size == old(self).brush_size,
            final(self).symmetry == old(self).symmetry,
            final(self).starting_position.x == MAP_WIDTH / 2,
            final(self).starting_position.y == MAP_HEIGHT / 2,
            match r {
                Ok(()) => {
                    &&& exists|e: int| playable(&final(self).map, final(self).start_index(), e)
                    &&& rimmed(&final(self).map)
                    &&& 1 <= final(self).noise_seed <= 65536
                    &&& exists|grown: Seq<TileType>| #[trigger]
                        grown_cave(grown, final(self)) && exit_placed(
                            grown,
                            MAP_WIDTH as int,
                            MAP_HEIGHT as int,
                            final(self).start_index(),
                            final(self).map.tiles@,
                            true,
                        )
                },
                Err(e) => e == BuildError::StepLimit,
            },
            r is Err ==> count_tiles(final(self).map.tiles@, TileType::Floor, final(self).map.tiles@.len() as int)
                < final(self).map.tiles@.len() * final(self).floor_percent / 100 && exists|
                stages: Seq<DLABuilder>,
            | #[trigger]
                grown(stages) && stages.last().map.tiles@ == final(self).map.tiles@ && same_settings(
                    &stages.last(),
                    final(self),
                ) && (final(self).algorithm == DLAAlgorithm::CentralAttractor ==> stages.len() == MAX_PARTICLES
                    + 1),
            old(self).floor_percent == 0 ==> r is Ok,
            r is Err ==> crate::map_builder::common::plain_tiles(final(self).map.tiles@),
    {
        match self.grow(rng) {
            Err(e) => {
                return Err(e);
            },
            Ok(()) => {},
        }
        let start_idx: usize = self.map.xy_idx(self.starting_position.x, self.starting_position.y);
        let ghost grown = self.map;
        proof {
            self.map.lemma_idx_bounds(self.starting_position.x as int, self.starting_position.y as int);
            assert(start_idx == 21 * 80 + 40);
            lemma_floor_beside_start(
                grown.tiles@,
                grown.width as int,
                grown.height as int,
                start_idx as int,
                start_idx + 1,
            );
            assert forall|i: int| 0 <= i < grown.tiles@.len() implies #[trigger] grown.tiles@[i] == TileType::Wall
                || (grown.tiles@[i] == TileType::Floor && is_inner(MAP_WIDTH as int, MAP_HEIGHT as int, i)) by {
                if !is_inner(MAP_WIDTH as int, MAP_HEIGHT as int, i) {
                    assert(!(1 <= grown.x_of(i) <= grown.width - 2 && 1 <= grown.y_of(i) <= grown.height - 2));
                }
            }
            assert(grown_cave(grown.tiles@, self));
        }
        let exit: Option<usize> = place_exit(&mut self.map, start_idx);
        proof {
            assert(exit_placed(
                grown.tiles@,
                MAP_WIDTH as int,
                MAP_HEIGHT as int,
                start_idx as int,
                self.map.tiles@,
                exit is Some,
            ));
            assert(exit is Some);
        }
        self.noise_seed = roll_dice(rng, 1, 65536) as u64;
        match exit {
            None => Err(BuildError::NoExit),
            Some(e) => {
                proof {
                    assert(playable(&self.map, start_idx as int, e as int));
                    assert(self.start_index() == start_idx);
                    assert(grown_cave(grown.tiles@, self) && exit_placed(
                        grown.tiles@,
                        MAP_WIDTH as int,
                        MAP_HEIGHT as int,
                        self.start_index(),
                        self.map.tiles@,
                        true,
                    ));
                    assert forall|i: int|
                        0 <= i < self.map.tiles@.len() && !(1 <= self.map.x_of(i) <= self.map.width - 2 && 1
                            <= self.map.y_of(i) <= self.map.height - 2) implies #[trigger] self.map.tiles@[i]
                        == TileType::Wall by {
                        assert(grown.tiles@[i] == TileType::Wall);
                    }
                }
                Ok(())
            },
        }
    }

    /// Groups the floor tiles into spawn regions by the values of a noise
    /// field, one value per tile.
    pub fn assign_regions(&mut self, cell_values: &Vec<i32>)
        requires
            old(self).wf(),
            cell_values@.len() == old(self).map.tiles@.len(),
        ensures
            final(self).map == old(self).map,
            final(self).starting_position == old(self).starting_position,
            final(self).depth == old(self).depth,
            forall|id: i32| #[trigger]
                final(self).noise_areas@.contains_key(id) <==> region_members(
                    old(self).map.tiles@,
                    old(self).map.width as int,
                    old(self).map.height as int,
                    cell_values@,
                    id,
                    old(self).map.tiles@.len() as int,
                ).len() > 0,
            forall|id: i32| #[trigger]
                final(self).noise_areas@.contains_key(id) ==> final(self).noise_areas@[id]@ == region_members(
                    old(self).map.tiles@,
                    old(self).map.width as int,
                    old(self).map.height as int,
                    cell_values@,
                    id,
                    old(self).map.tiles@.len() as int,
                ),
    {
        self.noise_areas = generate_voronoi_spawn_regions(&self.map, cell_values);
    }
}

} // verus!
