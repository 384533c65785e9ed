use crate::components::Position;
use crate::map::{MAP_HEIGHT, MAP_WIDTH, TileMap, TileType};
use crate::map_builder::cellular_automata::cave_tiles;
use crate::map_builder::common::{
    BuildError, count_floor, count_tiles, finished_from, generate_voronoi_spawn_regions, in_play, no_exit,
    one_step, place_exit, playable, region_members, stagger, staggered,
};
use crate::random::roll_dice;
use rltk::RandomNumberGenerator;
use std::collections::HashMap;
use vstd::prelude::*;

verus! {

/// The most diggers that one build releases.
pub const MAX_DIGGERS: u32 = 100000;

#[allow(dead_code)]
#[derive(PartialEq, Eq, Copy, Clone, Debug, Structural)]
pub enum DrunkSpawnMode {
    StartingPoint,
    Random,
}

/// How the diggers of a drunkard's walk behave. `floor_percent` is the
/// share of the map, in hundredths, that is to become floor.
#[derive(Copy, Clone, Debug)]
pub struct DrunkardSettings {
    pub spawn_mode: DrunkSpawnMode,
    pub lifetime: i32,
    pub floor_percent: u32,
}

/// Builds a cave by letting diggers stagger about and carve as they go.
pub struct DrunkardWalkBuilder {
    pub map: TileMap,
    pub starting_position: Position,
    pub depth: i32,
    pub noise_areas: HashMap<i32, Vec<usize>>,
    pub settings: DrunkardSettings,
    pub noise_seed: u64,
}

/// How many tiles of a map of `total` tiles make up `percent` hundredths
/// of it, rounded down.
pub open spec fn share_of(total: int, percent: int) -> int {
    total * percent / 100
}

/// Every tile outside the columns 2 to `width - 2` and the rows 2 to
/// `height - 2` is a wall.
pub open spec fn walled_in(map: &TileMap) -> bool {
    forall|i: int|
        0 <= i < map.tiles@.len() && !(2 <= map.x_of(i) <= map.width - 2 && 2 <= map.y_of(i) <= map.height - 2)
            ==> #[trigger] map.tiles@[i] == TileType::Wall
}

/// One of the first `n` points of the walk is `(cx, cy)`: the digger
/// stood there and dug.
pub open spec fn trodden(walk: Seq<(int, int)>, n: int, cx: int, cy: int) -> bool {
    exists|k: int| 0 <= k < n && #[trigger] walk[k] == (cx, cy)
}

/// What a digger that dug at the first `n` points of its walk leaves of
/// tile `i`: floor where it dug at a wall, and the tile as it was
/// everywhere else.
pub open spec fn dug_tile(before: &TileMap, walk: Seq<(int, int)>, n: int, i: int) -> TileType {
    if before.tiles@[i] == TileType::Wall && trodden(walk, n, before.x_of(i), before.y_of(i)) {
        TileType::Floor
    } else {
        before.tiles@[i]
    }
}

/// A digger released at `(x, y)` with `lifetime` steps to live went along
/// `walk`, one step at a time, dug wherever it stood before a step, and
/// left the tiles `after`.
pub open spec fn dug_along(
    before: &TileMap,
    after: Seq<TileType>,
    walk: Seq<(int, int)>,
    x: int,
    y: int,
    lifetime: int,
) -> bool {
    let n = if lifetime > 0 {
        lifetime
    } else {
        0
    };
    &&& walk.len() == n + 1
    &&& walk[0] == (x, y)
    &&& forall|k: int|
        0 <= k < n ==> one_step(
            before.width as int,
            before.height as int,
            (#[trigger] walk[k]).0,
            walk[k].1,
            walk[k + 1].0,
            walk[k + 1].1,
        )
    &&& after.len() == before.tiles@.len()
    &&& forall|i: int| 0 <= i < after.len() ==> #[trigger] after[i] == dug_tile(before, walk, n, i)
}

/// Stage `k + 1` comes from stage `k` by one digger: the floor of stage
/// `k` falls short of the wanted share; the digger was released in play,
/// and in the middle of the map if it is the first or if diggers are
/// released at the starting point; and it dug along its walk.
pub open spec fn digger_between(settings: DrunkardSettings, stages: Seq<TileMap>, k: int) -> bool {
    let before = stages[k];
    let after = stages[k + 1];
    &&& after.same_frame(&before)
    &&& count_tiles(before.tiles@, TileType::Floor, before.tiles@.len() as int) < share_of(
        before.tiles@.len() as int,
        settings.floor_percent as int,
    )
    &&& exists|walk: Seq<(int, int)>| #[trigger]
        dug_along(&before, after.tiles@, walk, walk[0].0, walk[0].1, settings.lifetime as int) && in_play(
            MAP_WIDTH as int,
            MAP_HEIGHT as int,
            walk[0].0,
            walk[0].1,
        ) && (settings.spawn_mode == DrunkSpawnMode::StartingPoint || k == 0 ==> walk[0] == (
            MAP_WIDTH as int / 2,
            MAP_HEIGHT as int / 2,
        ))
}

/// The stages of digging a cave out of rock: the first is rock with floor
/// in the middle of the map, and each further one comes from the one
/// before by one digger.
pub open spec fn dug_out(settings: DrunkardSettings, stages: Seq<TileMap>) -> bool {
    let middle = (MAP_HEIGHT as int / 2) * MAP_WIDTH + MAP_WIDTH as int / 2;
    &&& 1 <= stages.len() <= MAX_DIGGERS + 1
    &&& stages[0].wf()
    &&& stages[0].width == MAP_WIDTH
    &&& stages[0].height == MAP_HEIGHT
    &&& forall|i: int|
        0 <= i < stages[0].tiles@.len() ==> #[trigger] stages[0].tiles@[i] == (if i == middle {
            TileType::Floor
        } else {
            TileType::Wall
        })
    &&& forall|k: int| 0 <= k < stages.len() - 1 ==> #[trigger] digger_between(settings, stages, k)
}

/// A map as digging out leaves it: the last stage of digging a cave out
/// of rock, with at least the wanted share of all tiles floor.
pub open spec fn dug_cave(dug: &TileMap, settings: DrunkardSettings) -> bool {
    &&& dug.wf()
    &&& dug.width == MAP_WIDTH
    &&& dug.height == MAP_HEIGHT
    &&& cave_tiles(dug.tiles@)
    &&& walled_in(dug)
    &&& dug.at(MAP_WIDTH as int / 2, MAP_HEIGHT as int / 2) == TileType::Floor
    &&& count_tiles(dug.tiles@, TileType::Floor, dug.tiles@.len() as int) >= share_of(
        dug.tiles@.len() as int,
        settings.floor_percent as int,
    )
    &&& exists|stages: Seq<TileMap>| #[trigger] dug_out(settings, stages) && stages.last() == *dug
}

/// Carves the tile at `(x, y)` if it is a wall.
pub fn dig(map: &mut TileMap, x: i32, y: i32)
    requires
        old(map).wf(),
        old(map).in_bounds(x as int, y as int),
    ensures
        final(map).same_frame(old(map)),
        final(map).tiles@ == (if old(map).at(x as int, y as int) == TileType::Wall {
            old(map).tiles@.update(old(map).idx(x as int, y as int), TileType::Floor)
        } else {
            old(map).tiles@
        }),
        forall|i: int|
            0 <= i < final(map).tiles@.len() && !(old(map).x_of(i) == x && old(map).y_of(i) == y)
                ==> #[trigger] final(map).tiles@[i] == old(map).tiles@[i],
{
    if map.tile(x, y) == TileType::Wall {
        map.set_tile(x, y, TileType::Floor);
    }
}

impl DrunkardWalkBuilder {
    /// The map has the standard size.
    pub open spec fn wf(&self) -> bool {
        &&& self.map.wf()
        &&& self.map.width == MAP_WIDTH
        &&& self.map.height == MAP_HEIGHT
    }

    /// Nothing has been built yet: the map is solid rock.
    pub open spec fn unbuilt(&self) -> bool {
        &&& self.wf()
        &&& forall|i: int| 0 <= i < self.map.tiles@.len() ==> #[trigger] self.map.tiles@[i] == TileType::Wall
    }

    /// The index of the starting position.
    pub open spec fn start_index(&self) -> int {
        self.map.idx(self.starting_position.x as int, self.starting_position.y as int)
    }

    #[allow(dead_code)]
    pub fn new(depth: i32, settings: DrunkardSettings) -> (builder: DrunkardWalkBuilder)
        ensures
            builder.unbuilt(),
            builder.depth == depth,
            builder.map.depth == depth,
            builder.settings == settings,
            builder.starting_position == (Position { x: 0, y: 0 }),
            builder.noise_areas@.len() == 0,
    {
        DrunkardWalkBuilder {
            map: TileMap::new(MAP_WIDTH as i32, MAP_HEIGHT as i32, depth, Some(TileType::Wall)),
            starting_position: Position { x: 0, y: 0 },
            depth,
            noise_areas: HashMap::new(),
            settings,
            noise_seed: 0,
        }
    }

    #[allow(dead_code)]
    pub fn open_area(depth: i32) -> (builder: DrunkardWalkBuilder)
        ensures
            builder.unbuilt(),
            builder.depth == depth,
            builder.map.depth == depth,
            builder.settings == (DrunkardSettings {
                spawn_mode: DrunkSpawnMode::StartingPoint,
                lifetime: 400,
                floor_percent: 50,
            }),
    {
        DrunkardWalkBuilder::new(
            depth,
            DrunkardSettings { spawn_mode: DrunkSpawnMode::StartingPoint, lifetime: 400, floor_percent: 50 },
        )
    }

    #[allow(dead_code)]
    pub fn open_halls(depth: i32) -> (builder: DrunkardWalkBuilder)
        ensures
            builder.unbuilt(),
            builder.depth == depth,
            builder.map.depth == depth,
            builder.settings == (DrunkardSettings {
                spawn_mode: DrunkSpawnMode::Random,
                lifetime: 400,
                floor_percent: 50,
            }),
    {
        DrunkardWalkBuilder::new(
            depth,
            DrunkardSettings { spawn_mode: DrunkSpawnMode::Random, lifetime: 400, floor_percent: 50 },
        )
    }

    #[allow(dead_code)]
    pub fn winding_passages(depth: i32) -> (builder: DrunkardWalkBuilder)
        ensures
            builder.unbuilt(),
            builder.depth == depth,
            builder.map.depth == depth,
            builder.settings == (DrunkardSettings {
                spawn_mode: DrunkSpawnMode::StartingPoint,
                lifetime: 100,
                floor_percent: 40,
            }),
    {
        DrunkardWalkBuilder::new(
            depth,
            DrunkardSettings { spawn_mode: DrunkSpawnMode::StartingPoint, lifetime: 100, floor_percent: 40 },
        )
    }

    /// An independent copy of the map.
    pub fn get_map(&self) -> (map: TileMap)
        ensures
            map.same_shape(&self.map),
            map.tiles@ == self.map.tiles@,
            map.revealed_tiles@ == self.map.revealed_tiles@,
            map.visible_tiles@ == self.map.visible_tiles@,
            map.blocked@ == self.map.blocked@,
    {
        self.map.duplicate()
    }

    pub fn get_starting_position(&self) -> (position: Position)
        ensures
            position == self.starting_position,
    {
        self.starting_position
    }

    /// Releases one digger at `(x, y)`: for `lifetime` steps it carves
    /// the wall it stands on and staggers on in a random direction.
    pub fn release_digger(&mut self, rng: &mut RandomNumberGenerator, x: i32, y: i32)
        requires
            old(self).wf(),
            cave_tiles(old(self).map.tiles@),
            walled_in(&old(self).map),
            2 <= x <= old(self).map.width - 2,
            2 <= y <= old(self).map.height - 2,
        ensures
            final(self).wf(),
            final(self).map.same_frame(&old(self).map),
            final(self).depth == old(self).depth,
            final(self).settings == old(self).settings,
            final(self).starting_position == old(self).starting_position,
            cave_tiles(final(self).map.tiles@),
            walled_in(&final(self).map),
            forall|i: int|
                0 <= i < final(self).map.tiles@.len() && old(self).map.tiles@[i] == TileType::Floor
                    ==> #[trigger] final(self).map.tiles@[i] == TileType::Floor,
            old(self).settings.lifetime > 0 ==> final(self).map.at(x as int, y as int) == TileType::Floor,
            exists|walk: Seq<(int, int)>| #[trigger]
                dug_along(
                    &old(self).map,
                    final(self).map.tiles@,
                    walk,
                    x as int,
                    y as int,
                    old(self).settings.lifetime as int,
                ),
    {
        let mut drunk_x: i32 = x;
        let mut drunk_y: i32 = y;
        let mut drunk_life: i32 = self.settings.lifetime;
        let ghost mut walk: Seq<(int, int)> = seq![(x as int, y as int)];
        let ghost lifetime: int = if self.settings.lifetime > 0 {
            self.settings.lifetime as int
        } else {
            0
        };
        while drunk_life > 0
            invariant
                self.wf(),
                old(self).wf(),
                self.map.same_frame(&old(self).map),
                self.depth == old(self).depth,
                self.settings == old(self).settings,
                self.starting_position == old(self).starting_position,
                cave_tiles(self.map.tiles@),
                cave_tiles(old(self).map.tiles@),
                walled_in(&self.map),
                2 <= drunk_x <= self.map.width - 2,
                2 <= drunk_y <= self.map.height - 2,
                2 <= x <= self.map.width - 2,
                2 <= y <= self.map.height - 2,
                drunk_life <= self.settings.lifetime,
                lifetime == (if self.settings.lifetime > 0 {
                    self.settings.lifetime as int
                } else {
                    0
                }),
                drunk_life > 0 || drunk_life == self.settings.lifetime || drunk_life == 0,
                walk.len() == lifetime - (if drunk_life > 0 {
                    drunk_life as int
                } else {
                    0
                }) + 1,
                walk[0] == (x as int, y as int),
                walk.last() == (drunk_x as int, drunk_y as int),
                forall|k: int|
                    0 <= k < walk.len() - 1 ==> one_step(
                        self.map.width as int,
                        self.map.height as int,
                        (#[trigger] walk[k]).0,
                        walk[k].1,
                        walk[k + 1].0,
                        walk[k + 1].1,
                    ),
                forall|i: int|
                    0 <= i < self.map.tiles@.len() ==> #[trigger] self.map.tiles@[i] == dug_tile(
                        &old(self).map,
                        walk,
                        walk.len() - 1,
                        i,
                    ),
                forall|i: int|
                    0 <= i < self.map.tiles@.len() && old(self).map.tiles@[i] == TileType::Floor
                        ==> #[trigger] self.map.tiles@[i] == TileType::Floor,
                drunk_life == self.settings.lifetime ==> drunk_x == x && drunk_y == y,
                drunk_life < self.settings.lifetime ==> self.map.at(x as int, y as int) == TileType::Floor,
            decreases drunk_life,
        {
            proof {
                self.map.lemma_idx_bounds(x as int, y as int);
                self.map.lemma_idx_bounds(drunk_x as int, drunk_y as int);
            }
            let ghost standing = self.map;
            dig(&mut self.map, drunk_x, drunk_y);
            let stagger_direction: i32 = roll_dice(rng, 1, 4);
            let to: (i32, i32) = stagger(drunk_x, drunk_y, stagger_direction, self.map.width, self.map.height);
            proof {
                let at = walk.len() - 1;
                let longer = walk.push((to.0 as int, to.1 as int));
                assert(staggered(
                    drunk_x as int,
                    drunk_y as int,
                    stagger_direction as int,
                    self.map.width as int,
                    self.map.height as int,
                ) == (to.0 as int, to.1 as int));
                assert forall|k: int| 0 <= k < longer.len() - 1 implies one_step(
                    self.map.width as int,
                    self.map.height as int,
                    (#[trigger] longer[k]).0,
                    longer[k].1,
                    longer[k + 1].0,
                    longer[k + 1].1,
                ) by {
                    if k < at {
                        assert(longer[k] == walk[k] && longer[k + 1] == walk[k + 1]);
                    } else {
                        assert(longer[k] == (drunk_x as int, drunk_y as int));
                    }
                }
                assert forall|i: int| 0 <= i < self.map.tiles@.len() implies #[trigger] self.map.tiles@[i]
                    == dug_tile(&old(self).map, longer, at + 1, i) by {
                    let cx = old(self).map.x_of(i);
                    let cy = old(self).map.y_of(i);
                    assert(standing.tiles@[i] == dug_tile(&old(self).map, walk, at, i));
                    if trodden(walk, at, cx, cy) {
                        let k = choose|k: int| 0 <= k < at && #[trigger] walk[k] == (cx, cy);
                        assert(longer[k] == (cx, cy));
                        assert(trodden(longer, at + 1, cx, cy));
                    }
                    if cx == drunk_x && cy == drunk_y {
                        assert(longer[at] == (cx, cy));
                        assert(trodden(longer, at + 1, cx, cy));
                        old(self).map.lemma_cell_of_index(i);
                        assert(i == standing.idx(drunk_x as int, drunk_y as int));
                    }
                    if trodden(longer, at + 1, cx, cy) {
                        let k = choose|k: int| 0 <= k < at + 1 && #[trigger] longer[k] == (cx, cy);
                        if k < at {
                            assert(walk[k] == (cx, cy));
                            assert(trodden(walk, at, cx, cy));
                        }
                    }
                }
                walk = longer;
            }
            drunk_x = to.0;
            drunk_y = to.1;
            drunk_life -= 1;
        }
        proof {
            assert(dug_along(
                &old(self).map,
                self.map.tiles@,
                walk,
                x as int,
                y as int,
                old(self).settings.lifetime as int,
            ));
        }
    }

    /// Carves the start in the middle of the map and releases diggers
    /// until the wanted share of the map is floor. Gives up after
    /// `MAX_DIGGERS` diggers.
    pub fn dig_out(&mut self, rng: &mut RandomNumberGenerator) -> (r: Result<(), BuildError>)
        requires
            old(self).unbuilt(),
        ensures
            final(self).wf(),
            final(self).map.same_frame(&old(self).map),
            final(self).depth == old(self).depth,
            final(self).settings == old(self).settings,
            final(self).starting_position.x == MAP_WIDTH / 2,
            final(self).starting_position.y == MAP_HEIGHT / 2,
            cave_tiles(final(self).map.tiles@),
            walled_in(&final(self).map),
            final(self).map.tiles@[final(self).start_index()] == TileType::Floor,
            match r {
                Ok(()) => count_tiles(final(self).map.tiles@, TileType::Floor, final(self).map.tiles@.len() as int)
                    >= share_of(final(self).map.tiles@.len() as int, final(self).settings.floor_percent as int),
                Err(e) => e == BuildError::StepLimit && count_tiles(
                    final(self).map.tiles@,
                    TileType::Floor,
                    final(self).map.tiles@.len() as int,
                ) < share_of(final(self).map.tiles@.len() as int, final(self).settings.floor_percent as int),
            },
            exists|stages: Seq<TileMap>| #[trigger]
                dug_out(final(self).settings, stages) && stages.last() == final(self).map && (r is Err
                    ==> stages.len() == MAX_DIGGERS + 1),
            old(self).settings.floor_percent == 0 ==> r is Ok && final(self).map.tiles@ == old(self).map.tiles@.update(final(self).start_index(), TileType::Floor),
    {
        let center_x: i32 = self.map.width / 2;
        let center_y: i32 = self.map.height / 2;
        self.starting_position = Position { x: center_x, y: center_y };
        let start_idx: usize = self.map.xy_idx(center_x, center_y);
        self.map.set_tile(center_x, center_y, TileType::Floor);
        let total_tiles: i32 = self.map.width * self.map.height;
        let desired_floor_tiles: u64 = total_tiles as u64 * self.settings.floor_percent as u64 / 100;
        let mut floor_tile_count: usize = count_floor(&self.map);
        let mut digger_count: u32 = 0;
        let ghost mut stages: Seq<TileMap> = seq![self.map];
        proof {
            self.map.lemma_idx_bounds(center_x as int, center_y as int);
            assert(dug_out(self.settings, stages));
        }
        while (floor_tile_count as u64) < desired_floor_tiles
            invariant
                dug_out(self.settings, stages),
                self.settings.floor_percent == 0 ==> digger_count == 0,
                stages.len() == digger_count + 1,
                stages.last() == self.map,
                digger_count == 0 ==> self.map.tiles@ == old(self).map.tiles@.update(
                    start_idx as int,
                    TileType::Floor,
                ),
                start_idx < self.map.tiles@.len(),
                self.wf(),
                old(self).wf(),
                self.map.same_frame(&old(self).map),
                self.depth == old(self).depth,
                self.settings == old(self).settings,
                self.starting_position == (Position { x: center_x, y: center_y }),
                center_x == MAP_WIDTH / 2,
                center_y == MAP_HEIGHT / 2,
                start_idx == self.map.idx(center_x as int, center_y as int),
                cave_tiles(self.map.tiles@),
                walled_in(&self.map),
                self.map.tiles@[start_idx as int] == TileType::Floor,
                digger_count <= MAX_DIGGERS,
                desired_floor_tiles == share_of(self.map.tiles@.len() as int, self.settings.floor_percent as int),
                floor_tile_count == count_tiles(self.map.tiles@, TileType::Floor, self.map.tiles@.len() as int),
            decreases MAX_DIGGERS - digger_count,
        {
            proof {
                if self.settings.floor_percent == 0 {
                    assert(self.map.tiles@.len() * 0 == 0) by (nonlinear_arith);
                    assert(desired_floor_tiles == 0);
                }
            }
            if digger_count >= MAX_DIGGERS {
                return Err(BuildError::StepLimit);
            }
            let mut drunk_x: i32 = self.starting_position.x;
            let mut drunk_y: i32 = self.starting_position.y;
            match self.settings.spawn_mode {
                DrunkSpawnMode::StartingPoint => {},
                DrunkSpawnMode::Random => {
                    if digger_count != 0 {
                        drunk_x = roll_dice(rng, 1, self.map.width - 3) + 1;
                        drunk_y = roll_dice(rng, 1, self.map.height - 3) + 1;
                    }
                },
            }
            let ghost before = self.map;
            self.release_digger(rng, drunk_x, drunk_y);
            proof {
                let longer = stages.push(self.map);
                let k = stages.len() - 1;
                let walk = choose|walk: Seq<(int, int)>| #[trigger]
                    dug_along(&before, self.map.tiles@, walk, drunk_x as int, drunk_y as int, self.settings.lifetime as int);
                assert(walk[0] == (drunk_x as int, drunk_y as int));
                assert(dug_along(&before, self.map.tiles@, walk, walk[0].0, walk[0].1, self.settings.lifetime as int));
                assert(longer[k] == before && longer[k + 1] == self.map);
                assert(digger_between(self.settings, longer, k));
                assert forall|m: int| 0 <= m < longer.len() - 1 implies #[trigger] digger_between(
                    self.settings,
                    longer,
                    m,
                ) by {
                    if m < k {
                        assert(digger_between(self.settings, stages, m));
                        assert(longer[m] == stages[m] && longer[m + 1] == stages[m + 1]);
                    }
                }
                assert(longer[0] == stages[0]);
                stages = longer;
            }
            digger_count += 1;
            floor_tile_count = count_floor(&self.map);
        }
        Ok(())
    }

    /// Digs the cave out; then prunes what is cut off from the start in
    /// the middle of the map and puts the stairs on the farthest floor
    /// tile. Fails with `StepLimit` where digging gives up after
    /// `MAX_DIGGERS` diggers, and with `NoExit` if and only if the cave
    /// dug out has no exit, as it has none where no floor is asked for.
    pub fn build(&mut self, rng: &mut RandomNumberGenerator) -> (r: Result<(), BuildError>)
        requires
            old(self).unbuilt(),
        ensures
            final(self).wf(),
            final(self).map.same_shape(&old(self).map),
            final(self).depth == old(self).depth,
            final(self).settings == old(self).settings,
            final(self).starting_position.x == MAP_WIDTH / 2,
            final(self).starting_position.y == MAP_HEIGHT / 2,
            match r {
                Ok(()) => {
                    &&& exists|e: int| playable(&final(self).map, final(self).start_index(), e)
                    &&& walled_in(&final(self).map)
                    &&& 1 <= final(self).noise_seed <= 65536
                },
                Err(e) => e == BuildError::StepLimit || e == BuildError::NoExit,
            },
            old(self).settings.floor_percent == 0 ==> r == Err::<(), BuildError>(BuildError::NoExit),
            r is Err ==> crate::map_builder::common::plain_tiles(final(self).map.tiles@),
            r == Err::<(), BuildError>(BuildError::StepLimit) ==> count_tiles(
                final(self).map.tiles@,
                TileType::Floor,
                final(self).map.tiles@.len() as int,
            ) < share_of(final(self).map.tiles@.len() as int, final(self).settings.floor_percent as int)
                && exists|stages: Seq<TileMap>| #[trigger]
                dug_out(final(self).settings, stages) && stages.last() == final(self).map && stages.len()
                    == MAX_DIGGERS + 1,
            r != Err::<(), BuildError>(BuildError::StepLimit) ==> exists|dug: TileMap| #[trigger]
                dug_cave(&dug, final(self).settings) && finished_from(
                    dug.tiles@,
                    MAP_WIDTH as int,
                    MAP_HEIGHT as int,
                    final(self).start_index(),
                    final(self).map.tiles@,
                    r,
                ),
    {
        match self.dig_out(rng) {
            Err(e) => {
                return Err(e);
            },
            Ok(()) => {},
        }
        let start_idx: usize = self.map.xy_idx(self.starting_position.x, self.starting_position.y);
        let ghost dug = self.map;
        let exit: Option<usize> = place_exit(&mut self.map, start_idx);
        self.noise_seed = roll_dice(rng, 1, 65536) as u64;
        proof {
            self.map.lemma_idx_bounds(self.starting_position.x as int, self.starting_position.y as int);
            assert(self.start_index() == start_idx);
            assert(dug_cave(&dug, self.settings));
            if self.settings.floor_percent == 0 {
                assert forall|j: int| 0 <= j < dug.tiles@.len() && j != start_idx implies !(#[trigger] dug.tiles@[j]
                    == TileType::Floor) by {
                    assert(old(self).map.tiles@[j] == TileType::Wall);
                }
                assert(no_exit(dug.tiles@, MAP_WIDTH as int, MAP_HEIGHT as int, start_idx as int));
            }
            let r: Result<(), BuildError> = if exit is Some {
                Ok(())
            } else {
                Err(BuildError::NoExit)
            };
            assert(finished_from(
                dug.tiles@,
                MAP_WIDTH as int,
                MAP_HEIGHT as int,
                self.start_index(),
                self.map.tiles@,
                r,
            ));
        }
        match exit {
            None => Err(BuildError::NoExit),
            Some(e) => {
                proof {
                    assert(playable(&self.map, start_idx as int, e as int));
                    assert(self.start_index() == start_idx);
                    assert forall|i: int|
                        0 <= i < self.map.tiles@.len() && !(2 <= self.map.x_of(i) <= self.map.width - 2 && 2
                            <= self.map.y_of(i) <= self.map.height - 2) implies #[trigger] self.map.tiles@[i]
                        == TileType::Wall by {
                        assert(dug.tiles@[i] == TileType::Wall);
                    }
                }
                Ok(())
            },
        }
    }

    /// Groups the floor tiles into spawn regions by the values of a noise
    /// field, one value per tile.
    pub fn assign_regions(&mut self, cell_values: &Vec<i32>)
        requires
            old(self).wf(),
            cell_values@.len() == old(self).map.tiles@.len(),
        ensures
            final(self).map == old(self).map,
            final(self).starting_position == old(self).starting_position,
            final(self).depth == old(self).depth,
            forall|id: i32| #[trigger]
                final(self).noise_areas@.contains_key(id) <==> region_members(
                    old(self).map.tiles@,
                    old(self).map.width as int,
                    old(self).map.height as int,
                    cell_values@,
                    id,
                    old(self).map.tiles@.len() as int,
                ).len() > 0,
            forall|id: i32| #[trigger]
                final(self).noise_areas@.contains_key(id) ==> final(self).noise_areas@[id]@ == region_members(
                    old(self).map.tiles@,
                    old(self).map.width as int,
                    old(self).map.height as int,
                    cell_values@,
                    id,
                    old(self).map.tiles@.len() as int,
                ),
    {
        self.noise_areas = generate_voronoi_spawn_regions(&self.map, cell_values);
    }
}

} // verus!
