pub mod bsp_dungeon;
pub mod bsp_interior;
pub mod cellular_automata;
pub mod common;
pub mod distance;
pub mod dla;
pub mod drunkard;
pub mod maze;
pub mod prefab_builder;
pub mod simple_map;
pub mod voronoi;
pub mod waveform_collapse;

use crate::components::Position;
use crate::map::{MAP_HEIGHT, MAP_WIDTH, TileMap, TileType};
use crate::map_builder::bsp_dungeon::BspDungeonBuilder;
use crate::map_builder::bsp_interior::BspInteriorBuilder;
use crate::map_builder::cellular_automata::CellularAutomataBuilder;
use crate::map_builder::common::{all_joined, BuildError, lemma_playable_joined, playable};
use crate::map_builder::dla::DLABuilder;
use crate::map_builder::drunkard::DrunkardWalkBuilder;
use crate::map_builder::maze::MazeBuilder;
use crate::map_builder::simple_map::SimpleMapBuilder;
use crate::map_builder::voronoi::VoronoiBuilder;
use crate::map_builder::waveform_collapse::WaveformCollapseBuilder;
use crate::random::roll_dice;
use rltk::RandomNumberGenerator;
use vstd::prelude::*;

verus! {

/// How many strategies `random_builder` chooses from.
pub const STRATEGIES: i32 = 15;

/// One of the strategies that build a level.
pub enum MapBuilder {
    SimpleMap(SimpleMapBuilder),
    BspInterior(BspInteriorBuilder),
    CellularAutomata(CellularAutomataBuilder),
    BspDungeon(BspDungeonBuilder),
    DrunkardWalk(DrunkardWalkBuilder),
    Maze(MazeBuilder),
    Dla(DLABuilder),
    Voronoi(VoronoiBuilder),
    WaveformCollapse(WaveformCollapseBuilder),
}

/// The tile with index `e` is a stairway down, and no other tile is.
pub open spec fn stairs_only_at(tiles: Seq<TileType>, e: int) -> bool {
    &&& 0 <= e < tiles.len()
    &&& forall|i: int| 0 <= i < tiles.len() ==> (#[trigger] tiles[i] == TileType::DownStairs <==> i == e)
}

/// What every strategy hands over: a map of the standard size with
/// exactly one stairway down and no placeholder, and a starting position
/// on the map that is floor and from which a route leads to every floor
/// tile and to the stairway.
pub open spec fn level_done(map: &TileMap, start: Position) -> bool {
    &&& map.wf()
    &&& map.width == MAP_WIDTH
    &&& map.height == MAP_HEIGHT
    &&& map.in_bounds(start.x as int, start.y as int)
    &&& exists|e: int| stairs_only_at(map.tiles@, e)
    &&& forall|i: int| 0 <= i < map.tiles@.len() ==> #[trigger] map.tiles@[i] != TileType::Placeholder
    &&& map.at(start.x as int, start.y as int) == TileType::Floor
    &&& all_joined(map, map.idx(start.x as int, start.y as int))
}

/// Two builders are of one strategy, and so are the builders that they
/// derive from, if any.
pub open spec fn alike(a: MapBuilder, b: MapBuilder) -> bool
    decreases a,
{
    match a {
        MapBuilder::SimpleMap(_) => b is SimpleMap,
        MapBuilder::BspInterior(_) => b is BspInterior,
        MapBuilder::CellularAutomata(_) => b is CellularAutomata,
        MapBuilder::BspDungeon(_) => b is BspDungeon,
        MapBuilder::DrunkardWalk(_) => b is DrunkardWalk,
        MapBuilder::Maze(_) => b is Maze,
        MapBuilder::Dla(_) => b is Dla,
        MapBuilder::Voronoi(_) => b is Voronoi,
        MapBuilder::WaveformCollapse(x) => b is WaveformCollapse && match x.derive_from {
            Some(source) => b->WaveformCollapse_0.derive_from is Some && alike(
                *source,
                *b->WaveformCollapse_0.derive_from->0,
            ),
            None => b->WaveformCollapse_0.derive_from is None,
        },
    }
}

impl MapBuilder {
    /// The map that the strategy works on.
    pub open spec fn level(&self) -> TileMap {
        match self {
            MapBuilder::SimpleMap(b) => b.map,
            MapBuilder::BspInterior(b) => b.map,
            MapBuilder::CellularAutomata(b) => b.map,
            MapBuilder::BspDungeon(b) => b.map,
            MapBuilder::DrunkardWalk(b) => b.map,
            MapBuilder::Maze(b) => b.map,
            MapBuilder::Dla(b) => b.map,
            MapBuilder::Voronoi(b) => b.map,
            MapBuilder::WaveformCollapse(b) => b.map,
        }
    }

    /// Where the player starts.
    pub open spec fn start(&self) -> Position {
        match self {
            MapBuilder::SimpleMap(b) => b.starting_position,
            MapBuilder::BspInterior(b) => b.starting_position,
            MapBuilder::CellularAutomata(b) => b.starting_position,
            MapBuilder::BspDungeon(b) => b.starting_position,
            MapBuilder::DrunkardWalk(b) => b.starting_position,
            MapBuilder::Maze(b) => b.starting_position,
            MapBuilder::Dla(b) => b.starting_position,
            MapBuilder::Voronoi(b) => b.starting_position,
            MapBuilder::WaveformCollapse(b) => b.starting_position,
        }
    }

    /// The strategy has not built yet.
    pub open spec fn ready(&self) -> bool
        decreases self,
    {
        match self {
            MapBuilder::SimpleMap(b) => b.unbuilt(),
            MapBuilder::BspInterior(b) => b.unbuilt(),
            MapBuilder::CellularAutomata(b) => b.unbuilt(),
            MapBuilder::BspDungeon(b) => b.unbuilt(),
            MapBuilder::DrunkardWalk(b) => b.unbuilt(),
            MapBuilder::Maze(b) => b.wf(),
            MapBuilder::Dla(b) => b.unbuilt(),
            MapBuilder::Voronoi(b) => b.unbuilt(),
            MapBuilder::WaveformCollapse(b) => b.unbuilt(),
        }
    }

    /// An independent copy of the map.
    pub fn get_map(&self) -> (map: TileMap)
        ensures
            map.same_shape(&self.level()),
            map.tiles@ == self.level().tiles@,
            map.revealed_tiles@ == self.level().revealed_tiles@,
            map.visible_tiles@ == self.level().visible_tiles@,
            map.blocked@ == self.level().blocked@,
    {
        match self {
            MapBuilder::SimpleMap(b) => b.get_map(),
            MapBuilder::BspInterior(b) => b.get_map(),
            MapBuilder::CellularAutomata(b) => b.get_map(),
            MapBuilder::BspDungeon(b) => b.get_map(),
            MapBuilder::DrunkardWalk(b) => b.get_map(),
            MapBuilder::Maze(b) => b.get_map(),
            MapBuilder::Dla(b) => b.get_map(),
            MapBuilder::Voronoi(b) => b.get_map(),
            MapBuilder::WaveformCollapse(b) => b.get_map(),
        }
    }

    pub fn get_starting_position(&self) -> (position: Position)
        ensures
            position == self.start(),
    {
        match self {
            MapBuilder::SimpleMap(b) => b.get_starting_position(),
            MapBuilder::BspInterior(b) => b.get_starting_position(),
            MapBuilder::CellularAutomata(b) => b.get_starting_position(),
            MapBuilder::BspDungeon(b) => b.get_starting_position(),
            MapBuilder::DrunkardWalk(b) => b.get_starting_position(),
            MapBuilder::Maze(b) => b.get_starting_position(),
            MapBuilder::Dla(b) => b.get_starting_position(),
            MapBuilder::Voronoi(b) => b.get_starting_position(),
            MapBuilder::WaveformCollapse(b) => b.get_starting_position(),
        }
    }

    /// Builds the level. On success the level is done; the rooms of
    /// `BspInterior` and the `Maze` never fail.
    pub fn build(&mut self, rng: &mut RandomNumberGenerator) -> (r: Result<(), BuildError>)
        requires
            old(self).ready(),
        ensures
            final(self).level().same_shape(&old(self).level()),
            alike(*old(self), *final(self)),
            r is Ok ==> level_done(&final(self).level(), final(self).start()),
            r is Err ==> crate::map_builder::common::plain_tiles(final(self).level().tiles@) && !level_done(
                &final(self).level(),
                final(self).start(),
            ),
            *old(self) is BspInterior || *old(self) is Maze ==> r is Ok,
        decreases *old(self),
    {
        match self {
            MapBuilder::SimpleMap(b) => {
                let r = b.build(rng);
                proof {
                    if r is Err {
                        lemma_plain_not_done(&b.map, b.starting_position);
                    }
                    if r is Ok {
                        let first = b.rooms@[0];
                        let last = b.rooms@[b.rooms@.len() - 1];
                        assert(crate::map_builder::simple_map::room_fits(first));
                        assert(crate::map_builder::simple_map::room_fits(last));
                        b.map.lemma_idx_bounds(first.center_point().0, first.center_point().1);
                        b.map.lemma_idx_bounds(last.center_point().0, last.center_point().1);
                        assert(stairs_only_at(b.map.tiles@, crate::map_builder::simple_map::center_index(last)));
                        assert(b.map.tiles@[crate::map_builder::simple_map::center_index(b.rooms@[0])]
                            == TileType::Floor);
                    }
                }
                r
            },
            MapBuilder::BspInterior(b) => {
                let r = b.build(rng);
                proof {
                    if r is Err {
                        lemma_plain_not_done(&b.map, b.starting_position);
                    }
                    let first = b.rooms@[0];
                    let last = b.rooms@[b.rooms@.len() - 1];
                    assert(crate::map_builder::bsp_interior::piece_of(
                        first,
                        crate::map_builder::bsp_interior::whole(),
                    ));
                    assert(crate::map_builder::bsp_interior::piece_of(
                        last,
                        crate::map_builder::bsp_interior::whole(),
                    ));
                    b.map.lemma_idx_bounds(first.center_point().0, first.center_point().1);
                    b.map.lemma_idx_bounds(last.center_point().0, last.center_point().1);
                    assert(stairs_only_at(b.map.tiles@, crate::map_builder::simple_map::center_index(last)));
                }
                r
            },
            MapBuilder::CellularAutomata(b) => {
                let r = b.build(rng);
                proof {
                    if r is Err {
                        lemma_plain_not_done(&b.map, b.starting_position);
                    }
                    if r is Ok {
                        let e = choose|e: int| playable(&b.map, b.start_index(), e);
                        lemma_start_on_map(&b.map, b.starting_position, e);
                    }
                }
                r
            },
            MapBuilder::BspDungeon(b) => {
                let r = b.build(rng);
                proof {
                    if r is Err {
                        lemma_plain_not_done(&b.map, b.starting_position);
                    }
                    if r is Ok {
                        let first = b.rooms@[0];
                        let last = b.rooms@[b.rooms@.len() - 1];
                        assert(crate::map_builder::bsp_dungeon::room_placed(first));
                        assert(crate::map_builder::bsp_dungeon::room_placed(last));
                        b.map.lemma_idx_bounds(first.center_point().0, first.center_point().1);
                        b.map.lemma_idx_bounds(last.center_point().0, last.center_point().1);
                        assert(stairs_only_at(b.map.tiles@, crate::map_builder::simple_map::center_index(last)));
                    }
                }
                r
            },
            MapBuilder::DrunkardWalk(b) => {
                let r = b.build(rng);
                proof {
                    if r is Err {
                        lemma_plain_not_done(&b.map, b.starting_position);
                    }
                    if r is Ok {
                        let e = choose|e: int| playable(&b.map, b.start_index(), e);
                        lemma_start_on_map(&b.map, b.starting_position, e);
                    }
                }
                r
            },
            MapBuilder::Maze(b) => {
                let r = b.build(rng);
                proof {
                    if r is Err {
                        lemma_plain_not_done(&b.map, b.starting_position);
                    }
                    if r is Ok {
                        let e = choose|e: int| playable(&b.map, b.start_index(), e);
                        lemma_start_on_map(&b.map, b.starting_position, e);
                    }
                }
                r
            },
            MapBuilder::Dla(b) => {
                let r = b.build(rng);
                proof {
                    if r is Err {
                        lemma_plain_not_done(&b.map, b.starting_position);
                    }
                    if r is Ok {
                        let e = choose|e: int| playable(&b.map, b.start_index(), e);
                        lemma_start_on_map(&b.map, b.starting_position, e);
                    }
                }
                r
            },
            MapBuilder::Voronoi(b) => {
                let r = b.build(rng);
                proof {
                    if r is Err {
                        lemma_plain_not_done(&b.map, b.starting_position);
                    }
                    if r is Ok {
                        let e = choose|e: int| playable(&b.map, b.start_index(), e);
                        lemma_start_on_map(&b.map, b.starting_position, e);
                    }
                }
                r
            },
            MapBuilder::WaveformCollapse(b) => {
                let r = b.build(rng);
                proof {
                    if r is Err {
                        lemma_plain_not_done(&b.map, b.starting_position);
                    }
                    if r is Ok {
                        let e = choose|e: int| playable(&b.map, b.start_index(), e);
                        lemma_start_on_map(&b.map, b.starting_position, e);
                    }
                }
                r
            },
        }
    }
}

/// A level without a stairway is not done.
pub proof fn lemma_plain_not_done(map: &TileMap, start: Position)
    requires
        crate::map_builder::common::plain_tiles(map.tiles@),
    ensures
        !level_done(map, start),
{
    if level_done(map, start) {
        let e = choose|e: int| stairs_only_at(map.tiles@, e);
        assert(map.tiles@[e] == TileType::DownStairs);
    }
}

/// On a level that is done, a route leads from every floor tile and the
/// stairway to every other, and to the start.
pub proof fn lemma_level_joined_both_ways(map: &TileMap, start: Position, from: int, to: int)
    requires
        level_done(map, start),
        0 <= from < map.tiles@.len(),
        0 <= to < map.tiles@.len(),
        map.tiles@[from] == TileType::Floor || map.tiles@[from] == TileType::DownStairs,
        map.tiles@[to] == TileType::Floor || map.tiles@[to] == TileType::DownStairs,
    ensures
        crate::map_builder::common::ground(map).linked(from, to),
        crate::map_builder::common::ground(map).linked(from, map.idx(start.x as int, start.y as int)),
{
    map.lemma_idx_bounds(start.x as int, start.y as int);
    crate::map_builder::common::lemma_joined_both_ways(map, map.idx(start.x as int, start.y as int), from, to);
}

/// A level of the standard size that can be played from the index of
/// `start` is done, provided `start` names a cell at all.
pub proof fn lemma_start_on_map(map: &TileMap, start: Position, e: int)
    requires
        map.width == MAP_WIDTH,
        map.height == MAP_HEIGHT,
        playable(map, map.idx(start.x as int, start.y as int), e),
        map.in_bounds(start.x as int, start.y as int),
    ensures
        level_done(map, start),
{
    assert(stairs_only_at(map.tiles@, e));
    lemma_playable_joined(map, map.idx(start.x as int, start.y as int), e);
}

/// The builder that two rolls stand for: the strategy for `choice`, and
/// around it, where `wrap` is 1, a builder that puts that strategy's level
/// together anew from its own chunks.
pub fn assemble(depth: i32, choice: i32, wrap: i32) -> (builder: MapBuilder)
    ensures
        builder.ready(),
        builder.level().depth == depth,
        wrap != 1 ==> !(builder is WaveformCollapse) && same_strategy(builder, choice as int),
        wrap == 1 ==> builder is WaveformCollapse && builder->WaveformCollapse_0.derive_from is Some
            && same_strategy(*builder->WaveformCollapse_0.derive_from->0, choice as int),
{
    let result: MapBuilder = pick_builder(depth, choice);
    if wrap == 1 {
        MapBuilder::WaveformCollapse(WaveformCollapseBuilder::derived_map(depth, result))
    } else {
        result
    }
}

/// `builder` is what a roll of `choice`, from 0 to one less than
/// `STRATEGIES`, and a roll of `wrap`, from 1 to 3, stand for: the
/// strategy for `choice`, wrapped where `wrap` is 1.
pub open spec fn stands_for(builder: MapBuilder, choice: int, wrap: int) -> bool {
    &&& 0 <= choice < STRATEGIES
    &&& 1 <= wrap <= 3
    &&& wrap != 1 ==> !(builder is WaveformCollapse) && same_strategy(builder, choice)
    &&& wrap == 1 ==> builder is WaveformCollapse && builder->WaveformCollapse_0.derive_from is Some
        && same_strategy(*builder->WaveformCollapse_0.derive_from->0, choice)
}

/// `builder` is of the strategy that `choice` stands for.
pub open spec fn same_strategy(builder: MapBuilder, choice: int) -> bool {
    match builder {
        MapBuilder::SimpleMap(b) => choice == 0 || choice < 0 || choice >= STRATEGIES,
        MapBuilder::BspInterior(b) => choice == 1,
        MapBuilder::CellularAutomata(b) => choice == 2,
        MapBuilder::BspDungeon(b) => choice == 3,
        MapBuilder::DrunkardWalk(b) => 4 <= choice <= 6,
        MapBuilder::Maze(b) => choice == 7,
        MapBuilder::Dla(b) => 8 <= choice <= 11,
        MapBuilder::Voronoi(b) => 12 <= choice <= 14,
        MapBuilder::WaveformCollapse(b) => false,
    }
}

/// One attempt at a level: the builder that the two rolls stand for is
/// assembled and builds. The rooms of an interior and the maze, not
/// wrapped, never fail.
pub fn attempt(depth: i32, choice: i32, wrap: i32, rng: &mut RandomNumberGenerator) -> (built: Option<MapBuilder>)
    ensures
        built matches Some(builder) ==> {
            &&& level_done(&builder.level(), builder.start())
            &&& builder.level().depth == depth
            &&& wrap != 1 ==> same_strategy(builder, choice as int)
            &&& wrap == 1 ==> builder is WaveformCollapse && builder->WaveformCollapse_0.derive_from is Some
                && same_strategy(*builder->WaveformCollapse_0.derive_from->0, choice as int)
        },
        wrap != 1 && (choice == 1 || choice == 7) ==> built is Some,
{
    let mut builder: MapBuilder = assemble(depth, choice, wrap);
    let ghost assembled = builder;
    let r = builder.build(rng);
    proof {
        assert(alike(assembled, builder));
        if wrap == 1 {
            assert(alike(
                *assembled->WaveformCollapse_0.derive_from->0,
                *builder->WaveformCollapse_0.derive_from->0,
            ));
        }
    }
    match r {
        Ok(()) => Some(builder),
        Err(_) => None,
    }
}

/// Builds a level for the depth: draws builders at random, as
/// `random_builder` does, and lets them build until one succeeds,
/// `attempts` times at most.
pub fn generate(depth: i32, rng: &mut RandomNumberGenerator, attempts: u32) -> (built: Option<MapBuilder>)
    ensures
        built matches Some(builder) ==> level_done(&builder.level(), builder.start()) && builder.level().depth
            == depth,
        attempts == 0 ==> built is None,
{
    let mut tried: u32 = 0;
    while tried < attempts
        invariant
            tried <= attempts,
        decreases attempts - tried,
    {
        let choice: i32 = roll_dice(rng, 1, STRATEGIES) - 1;
        let wrap: i32 = roll_dice(rng, 1, 3);
        match attempt(depth, choice, wrap, rng) {
            Some(builder) => {
                return Some(builder);
            },
            None => {},
        }
        tried += 1;
    }
    None
}

/// The strategy that a roll of `choice` on a die with `STRATEGIES` sides
/// stands for, counted from 0; simple rooms for any other number.
pub fn pick_builder(depth: i32, choice: i32) -> (builder: MapBuilder)
    ensures
        builder.ready(),
        builder.level().depth == depth,
        same_strategy(builder, choice as int),
{
    if choice == 1 {
        MapBuilder::BspInterior(BspInteriorBuilder::new(depth))
    } else if choice == 2 {
        MapBuilder::CellularAutomata(CellularAutomataBuilder::new(depth))
    } else if choice == 3 {
        MapBuilder::BspDungeon(BspDungeonBuilder::new(depth))
    } else if choice == 4 {
        MapBuilder::DrunkardWalk(DrunkardWalkBuilder::open_area(depth))
    } else if choice == 5 {
        MapBuilder::DrunkardWalk(DrunkardWalkBuilder::open_halls(depth))
    } else if choice == 6 {
        MapBuilder::DrunkardWalk(DrunkardWalkBuilder::winding_passages(depth))
    } else if choice == 7 {
        MapBuilder::Maze(MazeBuilder::new(depth))
    } else if choice == 8 {
        MapBuilder::Dla(DLABuilder::walk_inwards(depth))
    } else if choice == 9 {
        MapBuilder::Dla(DLABuilder::walk_outwards(depth))
    } else if choice == 10 {
        MapBuilder::Dla(DLABuilder::central_attractor(depth))
    } else if choice == 11 {
        MapBuilder::Dla(DLABuilder::insectoid(depth))
    } else if choice == 12 {
        MapBuilder::Voronoi(VoronoiBuilder::pythagoras(depth))
    } else if choice == 13 {
        MapBuilder::Voronoi(VoronoiBuilder::manhattan(depth))
    } else if choice == 14 {
        MapBuilder::Voronoi(VoronoiBuilder::chebyshev(depth))
    } else {
        MapBuilder::SimpleMap(SimpleMapBuilder::new(depth))
    }
}

/// Draws a strategy at random and, one time in three, wraps it so that
/// its level is put together anew from its own chunks.
pub fn random_builder(depth: i32, rng: &mut RandomNumberGenerator) -> (builder: MapBuilder)
    ensures
        builder.ready(),
        builder.level().depth == depth,
        exists|choice: int, wrap: int| #[trigger] stands_for(builder, choice, wrap),
{
    let choice: i32 = roll_dice(rng, 1, STRATEGIES) - 1;
    let wrap: i32 = roll_dice(rng, 1, 3);
    let builder = assemble(depth, choice, wrap);
    proof {
        assert(stands_for(builder, choice as int, wrap as int));
    }
    builder
}

} // verus!
