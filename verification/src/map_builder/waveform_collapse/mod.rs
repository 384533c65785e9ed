pub mod common;
pub mod constraints;
pub mod image_loader;
pub mod solver;

use crate::components::Position;
use crate::map::{MAP_HEIGHT, MAP_WIDTH, TileMap, TileType};
use crate::map_builder::common::{
    BuildError, find_floor_leftward, finished_leftward, generate_voronoi_spawn_regions, place_exit, plain_tiles,
    playable, region_members,
};
use crate::map_builder::waveform_collapse::common::{is_constraint_table, MapChunk};
use crate::map_builder::waveform_collapse::constraints::{
    build_patterns, lemma_raw_pattern_tiles, lemma_unique_prefix, pattern_views, patterns_to_constraints,
    raw_patterns, unique,
};
use crate::map_builder::waveform_collapse::solver::{lemma_consistent_table_valid, Solver, table_valid};
use crate::map_builder::{alike, level_done, MapBuilder};
use crate::random::roll_dice;
use rltk::RandomNumberGenerator;
use std::collections::HashMap;
use vstd::prelude::*;

verus! {

/// The side of a chunk, in tiles.
pub const CHUNK_SIZE: i32 = 8;

/// How often the solver is started anew before the build gives up.
pub const MAX_ATTEMPTS: u32 = 10000;

/// Builds a level out of the chunks of another builder's level, put
/// together anew so that neighbouring chunks fit.
pub struct WaveformCollapseBuilder {
    pub map: TileMap,
    pub starting_position: Position,
    pub depth: i32,
    pub noise_areas: HashMap<i32, Vec<usize>>,
    pub derive_from: Option<Box<MapBuilder>>,
    pub noise_seed: u64,
}

/// No pattern of the table holds a stairway or a placeholder.
pub open spec fn table_plain(table: Seq<MapChunk>) -> bool {
    forall|p: int| 0 <= p < table.len() ==> plain_tiles((#[trigger] table[p]).pattern@)
}

/// Two tables hold the same patterns and the same neighbour lists.
pub open spec fn same_table(a: Seq<MapChunk>, b: Seq<MapChunk>) -> bool {
    &&& a.len() == b.len()
    &&& forall|p: int| 0 <= p < a.len() ==> (#[trigger] a[p]).pattern@ == b[p].pattern@
    &&& forall|p: int, d: int| 0 <= p < a.len() && 0 <= d < 4 ==> #[trigger] a[p].partners(d) == b[p].partners(d)
}

/// The slot whose place holds tile `i` of the map is empty, or the tile
/// lies beyond the last row or column of slots.
pub open spec fn left_alone(solver: &Solver, map: &TileMap, i: int) -> bool {
    let x = map.x_of(i) / (CHUNK_SIZE as int);
    let y = map.y_of(i) / (CHUNK_SIZE as int);
    !solver.inside(x, y) || solver.slot(x, y) is None
}

/// What a run of `solver` over the table made of the map `before`: the
/// slots cover the map in chunks, filled slots agree across their borders
/// and show on `map`, and every tile that no filled slot covers is as it
/// was. Where the run was possible every slot is filled; where it was
/// not, some empty slot has no candidate.
pub open spec fn solved_by(
    solver: &Solver,
    table: Seq<MapChunk>,
    before: &TileMap,
    map: &TileMap,
    possible: bool,
) -> bool {
    &&& solver.wf()
    &&& solver.fits(map)
    &&& same_table(solver.constraints@, table)
    &&& solver.chunk_size == CHUNK_SIZE
    &&& solver.chunks_x == MAP_WIDTH / (CHUNK_SIZE as usize)
    &&& solver.chunks_y == MAP_HEIGHT / (CHUNK_SIZE as usize)
    &&& solver.possible == possible
    &&& solver.agrees()
    &&& solver.shown(map)
    &&& forall|i: int| 0 <= i < map.tiles@.len() && left_alone(solver, map, i) ==> #[trigger] map.tiles@[i] == before.tiles@[i]
    &&& possible ==> solver.filled()
    &&& !possible ==> solver.contradicts()
}

/// What composing a level from the table made of the map `before`: a
/// possible run of `solver` drew `drawn`, and the level was finished from
/// the first floor tile of `drawn` met when walking left along the middle
/// row from the middle of the map, as `map`, the start and the result
/// `r` say.
pub open spec fn composed(
    solver: &Solver,
    table: Seq<MapChunk>,
    before: &TileMap,
    drawn: &TileMap,
    map: &TileMap,
    start: Position,
    r: Result<(), BuildError>,
) -> bool {
    &&& solved_by(solver, table, before, drawn, true)
    &&& finished_leftward(
        drawn.tiles@,
        MAP_WIDTH as int,
        MAP_HEIGHT as int,
        start.x as int,
        start.y as int,
        map.tiles@,
        r,
    )
}

/// `table` is the constraint table of `source`: that of `learned`, which
/// is `source` with its stairway taken for floor, cut into chunks,
/// mirrored, and freed of duplicates.
pub open spec fn learned_from(source: &TileMap, learned: &TileMap, table: Seq<MapChunk>) -> bool {
    &&& learned.same_frame(source)
    &&& forall|i: int|
        0 <= i < learned.tiles@.len() ==> #[trigger] learned.tiles@[i] == (if source.tiles@[i]
            == TileType::DownStairs {
            TileType::Floor
        } else {
            source.tiles@[i]
        })
    &&& is_constraint_table(table, unique(raw_patterns(learned, CHUNK_SIZE as int, true)), CHUNK_SIZE as int)
}

/// `map` was derived from `source`: composed from the constraint table
/// of `source`.
pub open spec fn derived(
    source: &TileMap,
    learned: &TileMap,
    table: Seq<MapChunk>,
    solver: &Solver,
    before: &TileMap,
    drawn: &TileMap,
    map: &TileMap,
    start: Position,
    r: Result<(), BuildError>,
) -> bool {
    learned_from(source, learned, table) && composed(solver, table, before, drawn, map, start, r)
}

/// Deriving a level from `source` was given up: the last run of the
/// solver over the constraint table of `source` left `map`, and ended in
/// a contradiction.
pub open spec fn gave_up(
    source: &TileMap,
    learned: &TileMap,
    table: Seq<MapChunk>,
    solver: &Solver,
    before: &TileMap,
    map: &TileMap,
) -> bool {
    learned_from(source, learned, table) && solved_by(solver, table, before, map, false)
}

/// A copy of a constraint table that shares nothing with it.
pub fn copy_chunks(table: &Vec<MapChunk>) -> (copy: Vec<MapChunk>)
    ensures
        same_table(copy@, table@),
{
    let mut copy: Vec<MapChunk> = Vec::new();
    let mut p: usize = 0;
    while p < table.len()
        invariant
            p <= table@.len(),
            copy@.len() == p,
            forall|q: int| 0 <= q < p ==> (#[trigger] copy@[q]).pattern@ == table@[q].pattern@,
            forall|q: int, d: int| 0 <= q < p && 0 <= d < 4 ==> #[trigger] copy@[q].partners(d) == table@[q].partners(d),
        decreases table@.len() - p,
    {
        copy.push(table[p].duplicate());
        p += 1;
    }
    copy
}

impl WaveformCollapseBuilder {
    /// The map has the standard size.
    pub open spec fn wf(&self) -> bool {
        &&& self.map.wf()
        &&& self.map.width == MAP_WIDTH
        &&& self.map.height == MAP_HEIGHT
    }

    /// Nothing has been built yet: the map is solid rock, and there is a
    /// builder to derive from that has not built either.
    pub open spec fn unbuilt(&self) -> bool
        decreases self,
    {
        &&& self.wf()
        &&& forall|i: int| 0 <= i < self.map.tiles@.len() ==> #[trigger] self.map.tiles@[i] == TileType::Wall
        &&& self.derive_from matches Some(source) && source.ready()
    }

    /// The level to derive from is done.
    pub open spec fn source_built(&self) -> bool {
        self.derive_from matches Some(source) && level_done(&source.level(), source.start())
    }

    /// The index of the starting position.
    pub open spec fn start_index(&self) -> int {
        self.map.idx(self.starting_position.x as int, self.starting_position.y as int)
    }

    pub fn new(depth: i32, derive_from: Option<Box<MapBuilder>>) -> (builder: WaveformCollapseBuilder)
        ensures
            builder.wf(),
            builder.depth == depth,
            builder.map.depth == depth,
            builder.derive_from == derive_from,
            builder.starting_position == (Position { x: 0, y: 0 }),
            builder.noise_areas@.len() == 0,
            forall|i: int| 0 <= i < builder.map.tiles@.len() ==> #[trigger] builder.map.tiles@[i] == TileType::Wall,
    {
        WaveformCollapseBuilder {
            map: TileMap::new(MAP_WIDTH as i32, MAP_HEIGHT as i32, depth, Some(TileType::Wall)),
            starting_position: Position { x: 0, y: 0 },
            depth,
            noise_areas: HashMap::new(),
            derive_from,
            noise_seed: 0,
        }
    }

    #[allow(dead_code)]
    pub fn derived_map(depth: i32, builder: MapBuilder) -> (derived: WaveformCollapseBuilder)
        ensures
            derived.wf(),
            derived.depth == depth,
            derived.map.depth == depth,
            derived.derive_from == Some(Box::new(builder)),
            builder.ready() ==> derived.unbuilt(),
    {
        WaveformCollapseBuilder::new(depth, Some(Box::new(builder)))
    }

    /// An independent copy of the map.
    pub fn get_map(&self) -> (map: TileMap)
        ensures
            map.same_shape(&self.map),
            map.tiles@ == self.map.tiles@,
            map.revealed_tiles@ == self.map.revealed_tiles@,
            map.visible_tiles@ == self.map.visible_tiles@,
            map.blocked@ == self.map.blocked@,
    {
        self.map.duplicate()
    }

    pub fn get_starting_position(&self) -> (position: Position)
        ensures
            position == self.starting_position,
    {
        self.starting_position
    }

    /// The constraint table of a finished level: its stairway is taken
    /// for floor, the level is cut into chunks, mirrored, and freed of
    /// duplicates.
    pub fn learn(source: &mut TileMap) -> (constraints: Vec<MapChunk>)
        requires
            old(source).wf(),
            old(source).width == MAP_WIDTH,
            old(source).height == MAP_HEIGHT,
            forall|i: int| 0 <= i < old(source).tiles@.len() ==> #[trigger] old(source).tiles@[i] != TileType::Placeholder,
        ensures
            final(source).same_frame(old(source)),
            forall|i: int|
                0 <= i < final(source).tiles@.len() ==> #[trigger] final(source).tiles@[i]
                    == (if old(source).tiles@[i] == TileType::DownStairs {
                    TileType::Floor
                } else {
                    old(source).tiles@[i]
                }),
            is_constraint_table(
                constraints@,
                unique(raw_patterns(final(source), CHUNK_SIZE as int, true)),
                CHUNK_SIZE as int,
            ),
            table_valid(constraints@, CHUNK_SIZE as int),
            table_plain(constraints@),
            constraints@.len() <= 200,
    {
        let mut t: usize = 0;
        while t < source.tiles.len()
            invariant
                source.same_frame(old(source)),
                t <= source.tiles@.len(),
                forall|i: int|
                    0 <= i < source.tiles@.len() ==> #[trigger] source.tiles@[i] == (if i < t
                        && old(source).tiles@[i] == TileType::DownStairs {
                        TileType::Floor
                    } else {
                        old(source).tiles@[i]
                    }),
            decreases source.tiles@.len() - t,
        {
            if source.tiles[t] == TileType::DownStairs {
                source.tiles[t] = TileType::Floor;
            }
            t += 1;
        }
        let patterns: Vec<Vec<TileType>> = build_patterns(source, CHUNK_SIZE, true, true);
        let ghost raw = raw_patterns(source, CHUNK_SIZE as int, true);
        proof {
            lemma_unique_prefix(raw, raw.len() as int);
            assert(raw.subrange(0, raw.len() as int) =~= raw);
            assert(80int / 8 == 10 && 43int / 8 == 5 && 10int * 5 * 4 == 200);
            assert((source.width as int) / (CHUNK_SIZE as int) == 10);
            assert((source.height as int) / (CHUNK_SIZE as int) == 5);
            assert(raw.len() == 200);
            assert forall|i: int| 0 <= i < patterns@.len() implies (#[trigger] patterns@[i])@.len() == CHUNK_SIZE
                * CHUNK_SIZE && plain_tiles(patterns@[i]@) by {
                let p = pattern_views(patterns@)[i];
                assert(p == patterns@[i]@);
                assert(unique(raw).contains(p));
                assert(raw.contains(p));
                let j = choose|j: int| 0 <= j < raw.len() && raw[j] == p;
                lemma_raw_pattern_tiles(source, CHUNK_SIZE as int, true, j, 0);
                assert forall|k: int| 0 <= k < p.len() implies #[trigger] p[k] != TileType::DownStairs && p[k]
                    != TileType::Placeholder by {
                    lemma_raw_pattern_tiles(source, CHUNK_SIZE as int, true, j, k);
                }
            }
        }
        let constraints: Vec<MapChunk> = patterns_to_constraints(patterns, CHUNK_SIZE);
        proof {
            lemma_consistent_table_valid(constraints@, CHUNK_SIZE as int);
            assert forall|p: int| 0 <= p < constraints@.len() implies plain_tiles(
                (#[trigger] constraints@[p]).pattern@,
            ) by {
                assert(constraints@[p].pattern@ == pattern_views(patterns@)[p]);
                assert(plain_tiles(patterns@[p]@));
            }
        }
        constraints
    }

    /// Runs a fresh solver over the map until it is done, and says
    /// whether every slot was filled. The run ends at the first slot
    /// that no pattern fits; what was placed until then stays on the map.
    pub fn solve(&mut self, constraints: &Vec<MapChunk>, rng: &mut RandomNumberGenerator) -> (possible: bool)
        requires
            old(self).wf(),
            plain_tiles(old(self).map.tiles@),
            table_valid(constraints@, CHUNK_SIZE as int),
            table_plain(constraints@),
        ensures
            final(self).wf(),
            final(self).map.same_frame(&old(self).map),
            final(self).depth == old(self).depth,
            final(self).derive_from == old(self).derive_from,
            final(self).starting_position == old(self).starting_position,
            plain_tiles(final(self).map.tiles@),
            exists|solver: Solver| #[trigger]
                solved_by(&solver, constraints@, &old(self).map, &final(self).map, possible),
    {
        let table: Vec<MapChunk> = copy_chunks(constraints);
        proof {
            assert(table_valid(table@, CHUNK_SIZE as int)) by {
                assert forall|i: int, d: int, k: int|
                    0 <= i < table@.len() && 0 <= d < 4 && 0 <= k < table@[i].partners(d).len()
                        implies #[trigger] table@[i].partners(
                    d,
                )[k] < table@.len() by {
                    assert(table@[i].partners(d) == constraints@[i].partners(d));
                }
            }
            assert forall|p: int| 0 <= p < table@.len() implies plain_tiles((#[trigger] table@[p]).pattern@) by {
                assert(plain_tiles(constraints@[p].pattern@));
            }
        }
        proof {
            assert(self.map.width / CHUNK_SIZE == 10 && self.map.height / CHUNK_SIZE == 5);
        }
        let mut solver: Solver = Solver::new(table, CHUNK_SIZE, &self.map);
        let mut done: bool = false;
        while !done
            invariant
                self.wf(),
                old(self).wf(),
                solver.wf(),
                solver.fits(&self.map),
                solver.chunk_size == CHUNK_SIZE,
                solver.chunks_x == MAP_WIDTH / (CHUNK_SIZE as usize),
                solver.chunks_y == MAP_HEIGHT / (CHUNK_SIZE as usize),
                table_plain(solver.constraints@),
                same_table(solver.constraints@, constraints@),
                solver.agrees(),
                solver.accounted(),
                solver.shown(&self.map),
                !done ==> solver.possible,
                done ==> solver.possible || solver.contradicts(),
                done && solver.possible ==> solver.remaining@.len() == 0,
                forall|i: int|
                    0 <= i < self.map.tiles@.len() && left_alone(&solver, &self.map, i)
                        ==> #[trigger] self.map.tiles@[i] == old(self).map.tiles@[i],
                self.map.same_frame(&old(self).map),
                self.depth == old(self).depth,
                self.derive_from == old(self).derive_from,
                self.starting_position == old(self).starting_position,
                plain_tiles(self.map.tiles@),
            decreases solver.remaining@.len() + (if done { 0int } else { 1int }),
        {
            let ghost before = self.map;
            let ghost was = solver;
            done = solver.iteration(&mut self.map, rng);
            proof {
                if !done {
                    let (x, y, p) = choose|x: int, y: int, p: usize|
                        was.filled_one(&solver, &before, &self.map, x, y, p);
                    assert forall|i: int| 0 <= i < self.map.tiles@.len() implies #[trigger] self.map.tiles@[i]
                        != TileType::DownStairs && self.map.tiles@[i] != TileType::Placeholder by {
                        let cx = before.x_of(i) - x * CHUNK_SIZE;
                        let cy = before.y_of(i) - y * CHUNK_SIZE;
                        assert(plain_tiles(was.constraints@[p as int].pattern@));
                        assert(plain_tiles(before.tiles@));
                        if 0 <= cx < CHUNK_SIZE && 0 <= cy < CHUNK_SIZE {
                            crate::map::lemma_cell_index_bounds(CHUNK_SIZE as int, CHUNK_SIZE as int, cx, cy);
                        }
                    }
                    assert forall|i: int|
                        0 <= i < self.map.tiles@.len() && left_alone(&solver, &self.map, i)
                            implies #[trigger] self.map.tiles@[i] == old(self).map.tiles@[i] by {
                        let sx = before.x_of(i) / (CHUNK_SIZE as int);
                        let sy = before.y_of(i) / (CHUNK_SIZE as int);
                        let cx = before.x_of(i) - x * CHUNK_SIZE;
                        let cy = before.y_of(i) - y * CHUNK_SIZE;
                        if 0 <= cx < CHUNK_SIZE && 0 <= cy < CHUNK_SIZE {
                            assert(sx == x && sy == y);
                            crate::map::lemma_cell_index_bounds(was.chunks_x as int, was.chunks_y as int, x, y);
                            assert(solver.slot(x, y) is Some);
                        } else if was.inside(sx, sy) {
                            crate::map::lemma_cell_index_bounds(was.chunks_x as int, was.chunks_y as int, sx, sy);
                            crate::map::lemma_cell_index_bounds(was.chunks_x as int, was.chunks_y as int, x, y);
                            assert(was.slot(sx, sy) is None);
                            assert(left_alone(&was, &before, i));
                        } else {
                            assert(left_alone(&was, &before, i));
                        }
                    }
                }
            }
        }
        proof {
            if solver.possible {
                assert(solver.filled());
            }
            assert(solved_by(&solver, constraints@, &old(self).map, &self.map, solver.possible));
        }
        solver.possible
    }

    /// Builds the level to derive from, learns its chunks, and lets the
    /// solver put a level together from them, starting anew after every
    /// contradiction; then finds the start by walking left from the middle
    /// of the map, prunes, and puts down the stairs. Fails with the error
    /// of the level to derive from, the map left as it was; with
    /// `Unsolvable` after `MAX_ATTEMPTS` contradictions, with `NoStart`
    /// where no floor is found, and with `NoExit` where the start is cut
    /// off.
    pub fn build(&mut self, rng: &mut RandomNumberGenerator) -> (r: Result<(), BuildError>)
        requires
            old(self).unbuilt(),
        ensures
            final(self).wf(),
            final(self).map.same_shape(&old(self).map),
            final(self).depth == old(self).depth,
            r is Ok ==> ({
                &&& final(self).map.in_bounds(
                    final(self).starting_position.x as int,
                    final(self).starting_position.y as int,
                )
                &&& final(self).starting_position.y == MAP_HEIGHT / 2
                &&& exists|e: int| playable(&final(self).map, final(self).start_index(), e)
                &&& 1 <= final(self).noise_seed <= 65536
                &&& final(self).source_built()
            }),
            r is Err ==> plain_tiles(final(self).map.tiles@),
            (!final(self).source_built() && r is Err && final(self).map.tiles@ == old(self).map.tiles@) || (final(self).source_built() && ((r == Err::<(), BuildError>(BuildError::Unsolvable) && exists|
                learned: TileMap,
                table: Seq<MapChunk>,
                solver: Solver,
                before: TileMap,
            | #[trigger]
                gave_up(&final(self).derive_from->0.level(), &learned, table, &solver, &before, &final(self).map))
                || exists|
                learned: TileMap,
                table: Seq<MapChunk>,
                solver: Solver,
                drawn: TileMap,
            | #[trigger]
                derived(
                    &final(self).derive_from->0.level(),
                    &learned,
                    table,
                    &solver,
                    &old(self).map,
                    &drawn,
                    &final(self).map,
                    final(self).starting_position,
                    r,
                ))),
            r is Ok ==> final(self).map.tiles@ != old(self).map.tiles@,
            old(self).derive_from matches Some(source) && (*source is BspInterior || *source is Maze)
                ==> final(self).source_built(),
            final(self).derive_from is Some && alike(*old(self).derive_from->0, *final(self).derive_from->0),
        decreases *old(self),
    {
        let mut source_map: TileMap;
        match &mut self.derive_from {
            None => {
                return Err(BuildError::Unsolvable);
            },
            Some(prebuilder) => {
                match prebuilder.build(rng) {
                    Err(e) => {
                        return Err(e);
                    },
                    Ok(()) => {},
                }
                source_map = prebuilder.get_map();
            },
        }
        let ghost source = source_map;
        let constraints: Vec<MapChunk> = WaveformCollapseBuilder::learn(&mut source_map);
        let ghost before = self.map;
        let r = self.compose(&constraints, rng);
        proof {
            assert(self.source_built());
            assert(learned_from(&self.derive_from->0.level(), &source_map, constraints@));
            if r == Err::<(), BuildError>(BuildError::Unsolvable) {
                let (solver, last) = choose|solver: Solver, last: TileMap| #[trigger]
                    solved_by(&solver, constraints@, &last, &self.map, false);
                assert(gave_up(&self.derive_from->0.level(), &source_map, constraints@, &solver, &last, &self.map));
            }
            if r != Err::<(), BuildError>(BuildError::Unsolvable) {
                let (solver, drawn) = choose|solver: Solver, drawn: TileMap| #[trigger]
                    composed(&solver, constraints@, &before, &drawn, &self.map, self.starting_position, r);
                assert(learned_from(&self.derive_from->0.level(), &source_map, constraints@));
                assert(derived(
                    &self.derive_from->0.level(),
                    &source_map,
                    constraints@,
                    &solver,
                    &old(self).map,
                    &drawn,
                    &self.map,
                    self.starting_position,
                    r,
                ));
            }
            if r is Ok {
                let e = choose|e: int| playable(&self.map, self.start_index(), e);
                assert(self.map.tiles@[e] == TileType::DownStairs);
                assert(old(self).map.tiles@[e] == TileType::Wall);
            }
        }
        r
    }

    /// Lets the solver put a level together from the patterns of the
    /// table, starting anew after every contradiction; then finds the
    /// start by walking left from the middle of the map, prunes, and puts
    /// down the stairs. Fails with `Unsolvable` after `MAX_ATTEMPTS`
    /// contradictions, the map left as the last run left it, with
    /// `NoStart` if and only if no floor is met on
    /// the way left, and with `NoExit` if and only if nothing but the
    /// start can be reached.
    pub fn compose(&mut self, constraints: &Vec<MapChunk>, rng: &mut RandomNumberGenerator) -> (r: Result<
        (),
        BuildError,
    >)
        requires
            old(self).wf(),
            plain_tiles(old(self).map.tiles@),
            table_valid(constraints@, CHUNK_SIZE as int),
            table_plain(constraints@),
        ensures
            final(self).wf(),
            final(self).map.same_shape(&old(self).map),
            final(self).depth == old(self).depth,
            final(self).derive_from == old(self).derive_from,
            match r {
                Ok(()) => {
                    &&& final(self).map.in_bounds(
                        final(self).starting_position.x as int,
                        final(self).starting_position.y as int,
                    )
                    &&& final(self).starting_position.y == MAP_HEIGHT / 2
                        &&& exists|e: int| playable(&final(self).map, final(self).start_index(), e)
                    &&& 1 <= final(self).noise_seed <= 65536
                },
                Err(e) => e == BuildError::Unsolvable || e == BuildError::NoStart || e == BuildError::NoExit,
            },
            r is Err ==> plain_tiles(final(self).map.tiles@),
            r == Err::<(), BuildError>(BuildError::Unsolvable) ==> exists|solver: Solver, before: TileMap| #[trigger]
                solved_by(&solver, constraints@, &before, &final(self).map, false),
            r != Err::<(), BuildError>(BuildError::Unsolvable) ==> exists|solver: Solver, drawn: TileMap| #[trigger]
                composed(
                    &solver,
                    constraints@,
                    &old(self).map,
                    &drawn,
                    &final(self).map,
                    final(self).starting_position,
                    r,
                ),
    {
        let mut attempts: u32 = 0;
        let mut solved: bool = false;
        while !solved
            invariant
                self.wf(),
                old(self).wf(),
                self.map.same_frame(&old(self).map),
                self.depth == old(self).depth,
                plain_tiles(self.map.tiles@),
                table_valid(constraints@, CHUNK_SIZE as int),
                table_plain(constraints@),
                self.derive_from == old(self).derive_from,
                attempts <= MAX_ATTEMPTS,
                forall|i: int|
                    0 <= i < self.map.tiles@.len() && self.map.y_of(i) >= 5 * CHUNK_SIZE
                        ==> #[trigger] self.map.tiles@[i] == old(self).map.tiles@[i],
                solved ==> exists|solver: Solver| #[trigger]
                    solved_by(&solver, constraints@, &old(self).map, &self.map, true),
                attempts > 0 && !solved ==> exists|solver: Solver, before: TileMap| #[trigger]
                    solved_by(&solver, constraints@, &before, &self.map, false),
            decreases MAX_ATTEMPTS - attempts + (if solved { 0int } else { 1int }),
        {
            if attempts >= MAX_ATTEMPTS {
                return Err(BuildError::Unsolvable);
            }
            attempts += 1;
            let ghost before = self.map;
            solved = self.solve(&constraints, rng);
            proof {
                let solver = choose|solver: Solver| #[trigger]
                    solved_by(&solver, constraints@, &before, &self.map, solved);
                if !solved {
                    assert(solved_by(&solver, constraints@, &before, &self.map, false));
                }
                assert forall|i: int|
                    0 <= i < self.map.tiles@.len() && self.map.y_of(i) >= 5 * CHUNK_SIZE
                        implies #[trigger] self.map.tiles@[i] == old(self).map.tiles@[i] by {
                    assert(left_alone(&solver, &self.map, i));
                    assert(before.tiles@[i] == old(self).map.tiles@[i]);
                }
                if solved {
                    assert forall|i: int|
                        0 <= i < self.map.tiles@.len() && left_alone(&solver, &self.map, i)
                            implies #[trigger] self.map.tiles@[i] == old(self).map.tiles@[i] by {
                        let x = self.map.x_of(i) / (CHUNK_SIZE as int);
                        let y = self.map.y_of(i) / (CHUNK_SIZE as int);
                        self.map.lemma_cell_of_index(i);
                        if solver.inside(x, y) {
                            crate::map::lemma_cell_index_bounds(solver.chunks_x as int, solver.chunks_y as int, x, y);
                            assert(solver.slot(x, y) is Some);
                        } else {
                            assert(0 <= self.map.x_of(i) < 80 && 0 <= self.map.y_of(i));
                            assert(0 <= x < 10 && 0 <= y);
                            assert(80int / 8 == 10 && 43int / 8 == 5);
                            assert(solver.chunks_x == 10 && solver.chunks_y == 5);
                            assert(y >= 5);
                            assert(self.map.y_of(i) >= 5 * CHUNK_SIZE);
                        }
                    }
                    assert(solved_by(&solver, constraints@, &old(self).map, &self.map, true));
                }
            }
        }
        let ghost drawn = self.map;
        let ghost solver = choose|solver: Solver| #[trigger]
            solved_by(&solver, constraints@, &old(self).map, &drawn, true);
        let center_x: i32 = self.map.width / 2;
        let center_y: i32 = self.map.height / 2;
        self.starting_position = Position { x: center_x, y: center_y };
        let found: Option<i32> = find_floor_leftward(&self.map, center_x, center_y);
        match found {
            None => {
                proof {
                    assert(composed(
                        &solver,
                        constraints@,
                        &old(self).map,
                        &drawn,
                        &self.map,
                        self.starting_position,
                        Err::<(), BuildError>(BuildError::NoStart),
                    ));
                }
                Err(BuildError::NoStart)
            },
            Some(fx) => {
                self.starting_position = Position { x: fx, y: center_y };
                let start_idx: usize = self.map.xy_idx(fx, center_y);
                proof {
                    assert(drawn.tiles@[crate::map::cell_index(MAP_WIDTH as int, fx as int, center_y as int)]
                        == TileType::Floor);
                }
                let exit: Option<usize> = place_exit(&mut self.map, start_idx);
                self.noise_seed = roll_dice(rng, 1, 65536) as u64;
                proof {
                    assert(self.start_index() == start_idx);
                    let r: Result<(), BuildError> = if exit is Some {
                        Ok(())
                    } else {
                        Err(BuildError::NoExit)
                    };
                    assert(composed(
                        &solver,
                        constraints@,
                        &old(self).map,
                        &drawn,
                        &self.map,
                        self.starting_position,
                        r,
                    ));
                }
                match exit {
                    None => Err(BuildError::NoExit),
                    Some(e) => {
                        proof {
                            assert(playable(&self.map, start_idx as int, e as int));
                        }
                        Ok(())
                    },
                }
            },
        }
    }

    /// Groups the floor tiles into spawn regions by the values of a noise
    /// field, one value per tile.
    pub fn assign_regions(&mut self, cell_values: &Vec<i32>)
        requires
            old(self).wf(),
            cell_values@.len() == old(self).map.tiles@.len(),
        ensures
            final(self).map == old(self).map,
            final(self).starting_position == old(self).starting_position,
            final(self).depth == old(self).depth,
            final(self).derive_from == old(self).derive_from,
            forall|id: i32| #[trigger]
                final(self).noise_areas@.contains_key(id) <==> region_members(
                    old(self).map.tiles@,
                    old(self).map.width as int,
                    old(self).map.height as int,
                    cell_values@,
                    id,
                    old(self).map.tiles@.len() as int,
                ).len() > 0,
            forall|id: i32| #[trigger]
                final(self).noise_areas@.contains_key(id) ==> final(self).noise_areas@[id]@ == region_members(
                    old(self).map.tiles@,
                    old(self).map.width as int,
                    old(self).map.height as int,
                    cell_values@,
                    id,
                    old(self).map.tiles@.len() as int,
                ),
    {
        self.noise_areas = generate_voronoi_spawn_regions(&self.map, cell_values);
    }
}

} // verus!
