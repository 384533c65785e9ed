use crate::components::Position;
use crate::map::{MAP_HEIGHT, MAP_WIDTH, TileMap, TileType};
use crate::map_builder::common::{
    finished_leftward, no_floor_leftward, rimmed, BuildError, find_floor_leftward, generate_voronoi_spawn_regions,
    place_exit, playable, region_members,
};
use crate::random::roll_dice;
use rltk::RandomNumberGenerator;
use std::collections::HashMap;
use vstd::prelude::*;

verus! {

/// How often the cave is smoothed.
pub const SMOOTHING_PASSES: u32 = 15;

/// Builds a cave: random noise, smoothed by a cellular automaton.
pub struct CellularAutomataBuilder {
    pub map: TileMap,
    pub starting_position: Position,
    pub depth: i32,
    pub noise_areas: HashMap<i32, Vec<usize>>,
    pub noise_seed: u64,
}

/// The tile that a roll of a hundred-sided die puts down: floor above 55.
pub open spec fn seeded_tile(roll: int) -> TileType {
    if roll > 55 {
        TileType::Floor
    } else {
        TileType::Wall
    }
}

/// A tile that some roll of a hundred-sided die puts down.
pub open spec fn rolled_tile(tile: TileType) -> bool {
    exists|roll: int| 1 <= roll <= 100 && tile == #[trigger] seeded_tile(roll)
}

/// The tile that a roll of a hundred-sided die puts down.
pub fn seed_tile(roll: i32) -> (tile: TileType)
    ensures
        tile == seeded_tile(roll as int),
{
    if roll > 55 {
        TileType::Floor
    } else {
        TileType::Wall
    }
}

/// Whether cell `i` lies off the rim of a `width` by `height` map.
pub open spec fn is_inner(width: int, height: int, i: int) -> bool {
    1 <= i % width <= width - 2 && 1 <= i / width <= height - 2
}

/// 1 where tile `i` is a wall, and 0 where it is not.
pub open spec fn wall_at(tiles: Seq<TileType>, i: int) -> int {
    if tiles[i] == TileType::Wall {
        1
    } else {
        0
    }
}

/// How many of the eight cells around cell `i` are walls.
pub open spec fn walls_around(tiles: Seq<TileType>, width: int, i: int) -> int {
    wall_at(tiles, i - 1) + wall_at(tiles, i + 1) + wall_at(tiles, i - width) + wall_at(tiles, i + width) + wall_at(
        tiles,
        i - (width - 1),
    ) + wall_at(tiles, i - (width + 1)) + wall_at(tiles, i + (width - 1)) + wall_at(tiles, i + (width + 1))
}

/// What one smoothing pass makes of cell `i`: off the rim, a wall where
/// more than four or none of the cells around it are walls, floor
/// otherwise. The rim stays.
pub open spec fn smoothed_tile(tiles: Seq<TileType>, width: int, height: int, i: int) -> TileType {
    if is_inner(width, height, i) {
        if walls_around(tiles, width, i) > 4 || walls_around(tiles, width, i) == 0 {
            TileType::Wall
        } else {
            TileType::Floor
        }
    } else {
        tiles[i]
    }
}

/// The tiles after one smoothing pass.
pub open spec fn smoothed(tiles: Seq<TileType>, width: int, height: int) -> Seq<TileType> {
    Seq::new(tiles.len(), |i: int| smoothed_tile(tiles, width, height, i))
}

/// The tiles after `n` smoothing passes.
pub open spec fn smoothed_times(tiles: Seq<TileType>, width: int, height: int, n: nat) -> Seq<TileType>
    decreases n,
{
    if n == 0 {
        tiles
    } else {
        smoothed(smoothed_times(tiles, width, height, (n - 1) as nat), width, height)
    }
}

/// Only walls and floor.
pub open spec fn cave_tiles(tiles: Seq<TileType>) -> bool {
    forall|i: int| 0 <= i < tiles.len() ==> #[trigger] tiles[i] == TileType::Wall || tiles[i] == TileType::Floor
}

/// One smoothing pass over the whole map.
pub fn smooth(map: &mut TileMap)
    requires
        old(map).wf(),
    ensures
        final(map).same_frame(old(map)),
        final(map).tiles@ == smoothed(old(map).tiles@, old(map).width as int, old(map).height as int),
        cave_tiles(old(map).tiles@) ==> cave_tiles(final(map).tiles@),
{
    let ghost before = map.tiles@;
    let ghost w = map.width as int;
    let ghost h = map.height as int;
    let mut new_tiles: Vec<TileType> = crate::map::copy_tiles(&map.tiles);
    let width: usize = map.width as usize;
    let mut y: i32 = 1;
    while y < map.height - 1
        invariant
            map.wf(),
            *map == *old(map),
            before == map.tiles@,
            w == map.width,
            h == map.height,
            width == map.width,
            1 <= y,
            new_tiles@.len() == before.len(),
            forall|i: int|
                0 <= i < before.len() ==> #[trigger] new_tiles@[i] == (if map.y_of(i) < y {
                    smoothed_tile(before, w, h, i)
                } else {
                    before[i]
                }),
        decreases map.height - y,
    {
        let mut x: i32 = 1;
        while x < map.width - 1
            invariant
                map.wf(),
                *map == *old(map),
                before == map.tiles@,
                w == map.width,
                h == map.height,
                width == map.width,
                1 <= y < map.height - 1,
                1 <= x,
                new_tiles@.len() == before.len(),
                forall|i: int|
                    0 <= i < before.len() ==> #[trigger] new_tiles@[i] == (if map.y_of(i) < y || (map.y_of(i) == y
                        && map.x_of(i) < x && is_inner(w, h, i)) {
                        smoothed_tile(before, w, h, i)
                    } else {
                        before[i]
                    }),
            decreases map.width - x,
        {
            let idx: usize = map.xy_idx(x, y);
            proof {
                map.lemma_idx_bounds(x as int, y as int);
                map.lemma_idx_bounds(x - 1, y - 1);
                map.lemma_idx_bounds(x + 1, y + 1);
                assert((y - 1) * w == y * w - w) by (nonlinear_arith);
                assert((y + 1) * w == y * w + w) by (nonlinear_arith);
            }
            let mut neighbours: i32 = 0;
            if map.tiles[idx - 1] == TileType::Wall {
                neighbours += 1
            }
            if map.tiles[idx + 1] == TileType::Wall {
                neighbours += 1
            }
            if map.tiles[idx - width] == TileType::Wall {
                neighbours += 1;
            }
            if map.tiles[idx + width] == TileType::Wall {
                neighbours += 1;
            }
            if map.tiles[idx - (width - 1)] == TileType::Wall {
                neighbours += 1;
            }
            if map.tiles[idx - (width + 1)] == TileType::Wall {
                neighbours += 1;
            }
            if map.tiles[idx + (width - 1)] == TileType::Wall {
                neighbours += 1;
            }
            if map.tiles[idx + (width + 1)] == TileType::Wall {
                neighbours += 1;
            }
            proof {
                assert(neighbours == walls_around(before, w, idx as int));
                assert forall|i: int| 0 <= i < before.len() && #[trigger] map.y_of(i) == y && map.x_of(i)
                    == x implies i == idx by {
                    map.lemma_cell_of_index(i);
                }
            }
            new_tiles[idx] = if neighbours > 4 || neighbours == 0 {
                TileType::Wall
            } else {
                TileType::Floor
            };
            x += 1;
        }
        proof {
            assert forall|i: int| 0 <= i < before.len() implies #[trigger] new_tiles@[i] == (if map.y_of(i) < y
                + 1 {
                smoothed_tile(before, w, h, i)
            } else {
                before[i]
            }) by {
                map.lemma_cell_of_index(i);
            }
        }
        y += 1;
    }
    proof {
        assert forall|i: int| 0 <= i < before.len() implies #[trigger] new_tiles@[i] == smoothed_tile(
            before,
            w,
            h,
            i,
        ) by {
            map.lemma_cell_of_index(i);
        }
        assert(new_tiles@ =~= smoothed(before, w, h));
    }
    map.tiles = new_tiles;
}

/// What settling makes of the tiles `before`: the cave is `before`
/// smoothed fifteen times, and the level is finished from the first floor
/// tile of the cave met walking left along the middle row from the middle
/// of the map.
#[verifier::opaque]
pub open spec fn settled_cave(before: Seq<TileType>, after: &CellularAutomataBuilder, r: Result<(), BuildError>) -> bool {
    let w = MAP_WIDTH as int;
    let h = MAP_HEIGHT as int;
    let cave = smoothed_times(before, w, h, SMOOTHING_PASSES as nat);
    finished_leftward(
        cave,
        w,
        h,
        after.starting_position.x as int,
        after.starting_position.y as int,
        after.map.tiles@,
        r,
    )
}

/// Tiles as the random fill leaves them: floor or wall off the rim, and
/// a wall on it.
pub open spec fn random_fill(fill: Seq<TileType>) -> bool {
    &&& fill.len() == MAP_WIDTH * MAP_HEIGHT
    &&& forall|i: int|
        0 <= i < fill.len() ==> #[trigger] fill[i] == TileType::Wall || (fill[i] == TileType::Floor && is_inner(
            MAP_WIDTH as int,
            MAP_HEIGHT as int,
            i,
        ))
}

impl CellularAutomataBuilder {
    /// The map has the standard size.
    pub open spec fn wf(&self) -> bool {
        &&& self.map.wf()
        &&& self.map.width == MAP_WIDTH
        &&& self.map.height == MAP_HEIGHT
    }

    /// Nothing has been built yet: the map is solid rock.
    pub open spec fn unbuilt(&self) -> bool {
        &&& self.wf()
        &&& forall|i: int| 0 <= i < self.map.tiles@.len() ==> #[trigger] self.map.tiles@[i] == TileType::Wall
    }

    /// The index of the starting position.
    pub open spec fn start_index(&self) -> int {
        self.map.idx(self.starting_position.x as int, self.starting_position.y as int)
    }

    #[allow(dead_code)]
    pub fn new(depth: i32) -> (builder: CellularAutomataBuilder)
        ensures
            builder.unbuilt(),
            builder.depth == depth,
            builder.map.depth == depth,
            builder.starting_position == (Position { x: 0, y: 0 }),
            builder.noise_areas@.len() == 0,
    {
        CellularAutomataBuilder {
            map: TileMap::new(MAP_WIDTH as i32, MAP_HEIGHT as i32, depth, Some(TileType::Wall)),
            starting_position: Position { x: 0, y: 0 },
            depth,
            noise_areas: HashMap::new(),
            noise_seed: 0,
        }
    }

    /// An independent copy of the map.
    pub fn get_map(&self) -> (map: TileMap)
        ensures
            map.same_shape(&self.map),
            map.tiles@ == self.map.tiles@,
            map.revealed_tiles@ == self.map.revealed_tiles@,
            map.visible_tiles@ == self.map.visible_tiles@,
            map.blocked@ == self.map.blocked@,
    {
        self.map.duplicate()
    }

    pub fn get_starting_position(&self) -> (position: Position)
        ensures
            position == self.starting_position,
    {
        self.starting_position
    }

    /// Rolls a hundred-sided die for every cell off the rim, row by row,
    /// and puts down the tile of the roll, whatever the cell held. The
    /// rim stays as it is.
    pub fn randomize(&mut self, rng: &mut RandomNumberGenerator)
        requires
            old(self).wf(),
        ensures
            final(self).wf(),
            final(self).map.same_frame(&old(self).map),
            final(self).depth == old(self).depth,
            final(self).starting_position == old(self).starting_position,
            forall|i: int|
                0 <= i < final(self).map.tiles@.len() && is_inner(MAP_WIDTH as int, MAP_HEIGHT as int, i)
                    ==> rolled_tile(#[trigger] final(self).map.tiles@[i]),
            forall|i: int|
                0 <= i < final(self).map.tiles@.len() && !is_inner(MAP_WIDTH as int, MAP_HEIGHT as int, i)
                    ==> #[trigger] final(self).map.tiles@[i] == old(self).map.tiles@[i],
            cave_tiles(old(self).map.tiles@) ==> cave_tiles(final(self).map.tiles@),
    {
        let mut y: i32 = 1;
        while y < self.map.height - 1
            invariant
                self.wf(),
                old(self).wf(),
                self.map.same_frame(&old(self).map),
                self.depth == old(self).depth,
                self.starting_position == old(self).starting_position,
                1 <= y <= self.map.height - 1,
                forall|i: int|
                    0 <= i < self.map.tiles@.len() && is_inner(MAP_WIDTH as int, MAP_HEIGHT as int, i)
                        && self.map.y_of(i) < y ==> rolled_tile(#[trigger] self.map.tiles@[i]),
                forall|i: int|
                    0 <= i < self.map.tiles@.len() && !(is_inner(MAP_WIDTH as int, MAP_HEIGHT as int, i)
                        && self.map.y_of(i) < y) ==> #[trigger] self.map.tiles@[i] == old(self).map.tiles@[i],
            decreases self.map.height - y,
        {
            let mut x: i32 = 1;
            while x < self.map.width - 1
                invariant
                    self.wf(),
                    old(self).wf(),
                    self.map.same_frame(&old(self).map),
                    self.depth == old(self).depth,
                    self.starting_position == old(self).starting_position,
                    1 <= y < self.map.height - 1,
                    1 <= x <= self.map.width - 1,
                    forall|i: int|
                        0 <= i < self.map.tiles@.len() && is_inner(MAP_WIDTH as int, MAP_HEIGHT as int, i) && (
                        self.map.y_of(i) < y || (self.map.y_of(i) == y && self.map.x_of(i) < x)) ==> rolled_tile(
                            #[trigger] self.map.tiles@[i],
                        ),
                    forall|i: int|
                        0 <= i < self.map.tiles@.len() && !(is_inner(MAP_WIDTH as int, MAP_HEIGHT as int, i) && (
                        self.map.y_of(i) < y || (self.map.y_of(i) == y && self.map.x_of(i) < x)))
                            ==> #[trigger] self.map.tiles@[i] == old(self).map.tiles@[i],
                decreases self.map.width - x,
            {
                let roll: i32 = roll_dice(rng, 1, 100);
                let ghost before = self.map;
                self.map.set_tile(x, y, seed_tile(roll));
                proof {
                    assert(rolled_tile(seeded_tile(roll as int)));
                    assert forall|i: int|
                        0 <= i < self.map.tiles@.len() && is_inner(MAP_WIDTH as int, MAP_HEIGHT as int, i) && (
                        self.map.y_of(i) < y || (self.map.y_of(i) == y && self.map.x_of(i) < x + 1))
                            implies rolled_tile(#[trigger] self.map.tiles@[i]) by {
                        if !(before.x_of(i) == x && before.y_of(i) == y) {
                            assert(rolled_tile(before.tiles@[i]));
                        }
                    }
                }
                x += 1;
            }
            y += 1;
        }
        proof {
            if cave_tiles(old(self).map.tiles@) {
                assert forall|i: int| 0 <= i < self.map.tiles@.len() implies #[trigger] self.map.tiles@[i]
                    == TileType::Wall || self.map.tiles@[i] == TileType::Floor by {
                    if is_inner(MAP_WIDTH as int, MAP_HEIGHT as int, i) {
                        assert(rolled_tile(self.map.tiles@[i]));
                    }
                }
            }
        }
    }

    /// Smooths the cave, finds the start by walking left from the middle
    /// of the map to the first floor tile, prunes what cannot be reached
    /// from there, and puts the stairs on the farthest tile that can.
    pub fn settle(&mut self) -> (r: Result<(), BuildError>)
        requires
            old(self).wf(),
            cave_tiles(old(self).map.tiles@),
        ensures
            final(self).wf(),
            final(self).map.same_shape(&old(self).map),
            final(self).depth == old(self).depth,
            settled_cave(old(self).map.tiles@, final(self), r),
            r is Err ==> crate::map_builder::common::plain_tiles(final(self).map.tiles@),
            rimmed(&old(self).map) ==> rimmed(&final(self).map),
            match r {
                Ok(()) => final(self).map.in_bounds(
                    final(self).starting_position.x as int,
                    final(self).starting_position.y as int,
                ) && exists|e: int| playable(&final(self).map, final(self).start_index(), e),
                Err(e) => e == BuildError::NoStart || e == BuildError::NoExit,
            },
    {
        let ghost w = MAP_WIDTH as int;
        let ghost h = MAP_HEIGHT as int;
        let ghost first = self.map.tiles@;
        let mut pass: u32 = 0;
        while pass < SMOOTHING_PASSES
            invariant
                self.wf(),
                self.map.same_frame(&old(self).map),
                self.depth == old(self).depth,
                pass <= SMOOTHING_PASSES,
                w == MAP_WIDTH,
                h == MAP_HEIGHT,
                first == old(self).map.tiles@,
                cave_tiles(self.map.tiles@),
                rimmed(&old(self).map) ==> rimmed(&self.map),
                self.map.tiles@ == smoothed_times(first, w, h, pass as nat),
            decreases SMOOTHING_PASSES - pass,
        {
            let ghost rough = self.map;
            smooth(&mut self.map);
            proof {
                if rimmed(&rough) {
                    assert forall|i: int|
                        0 <= i < self.map.tiles@.len() && !(1 <= self.map.x_of(i) <= self.map.width - 2 && 1
                            <= self.map.y_of(i) <= self.map.height - 2) implies #[trigger] self.map.tiles@[i]
                        == TileType::Wall by {
                        assert(rough.tiles@[i] == TileType::Wall);
                        assert(!is_inner(w, h, i));
                    }
                }
            }
            pass += 1;
        }
        let ghost cave = self.map.tiles@;
        let center_x: i32 = self.map.width / 2;
        let center_y: i32 = self.map.height / 2;
        self.starting_position = Position { x: center_x, y: center_y };
        let found: Option<i32> = find_floor_leftward(&self.map, center_x, center_y);
        match found {
            None => {
                proof {
                    reveal(settled_cave);
                }
                Err(BuildError::NoStart)
            },
            Some(fx) => {
                self.starting_position = Position { x: fx, y: center_y };
                let start_idx: usize = self.map.xy_idx(fx, center_y);
                proof {
                    assert(cave[crate::map::cell_index(w, fx as int, h / 2)] == TileType::Floor);
                    assert(!no_floor_leftward(cave, w, w / 2, h / 2));
                }
                let ghost smoothed_map = self.map;
                let exit: Option<usize> = place_exit(&mut self.map, start_idx);
                proof {
                    reveal(settled_cave);
                    assert(self.start_index() == start_idx);
                    if rimmed(&smoothed_map) {
                        assert forall|i: int|
                            0 <= i < self.map.tiles@.len() && !(1 <= self.map.x_of(i) <= self.map.width - 2 && 1
                                <= self.map.y_of(i) <= self.map.height - 2) implies #[trigger] self.map.tiles@[i]
                            == TileType::Wall by {
                            assert(smoothed_map.tiles@[i] == TileType::Wall);
                        }
                    }
                }
                match exit {
                    None => Err(BuildError::NoExit),
                    Some(e) => {
                        proof {
                            assert(playable(&self.map, start_idx as int, e as int));
                        }
                        Ok(())
                    },
                }
            },
        }
    }

    /// Builds the cave: fills the map at random and settles the fill.
    /// Which fill comes out depends on the rolls; what is made of it does
    /// not.
    pub fn build(&mut self, rng: &mut RandomNumberGenerator) -> (r: Result<(), BuildError>)
        requires
            old(self).unbuilt(),
        ensures
            final(self).wf(),
            final(self).map.same_shape(&old(self).map),
            final(self).depth == old(self).depth,
            match r {
                Ok(()) => final(self).map.in_bounds(
                    final(self).starting_position.x as int,
                    final(self).starting_position.y as int,
                ) && final(self).starting_position.y == MAP_HEIGHT / 2 && 1 <= final(self).starting_position.x
                    <= MAP_WIDTH / 2 && exists|e: int| playable(&final(self).map, final(self).start_index(), e),
                Err(e) => e == BuildError::NoStart || e == BuildError::NoExit,
            },
            exists|fill: Seq<TileType>| random_fill(fill) && #[trigger] settled_cave(fill, final(self), r),
            r is Err ==> crate::map_builder::common::plain_tiles(final(self).map.tiles@),
            rimmed(&final(self).map),
            1 <= final(self).noise_seed <= 65536,
    {
        self.randomize(rng);
        proof {
            assert forall|i: int|
                0 <= i < self.map.tiles@.len() && !(1 <= self.map.x_of(i) <= self.map.width - 2 && 1
                    <= self.map.y_of(i) <= self.map.height - 2) implies #[trigger] self.map.tiles@[i]
                == TileType::Wall by {
                assert(!is_inner(MAP_WIDTH as int, MAP_HEIGHT as int, i));
            }
        }
        let ghost fill = self.map.tiles@;
        proof {
            assert forall|i: int| 0 <= i < fill.len() implies #[trigger] fill[i] == TileType::Wall || (fill[i]
                == TileType::Floor && is_inner(MAP_WIDTH as int, MAP_HEIGHT as int, i)) by {
                if is_inner(MAP_WIDTH as int, MAP_HEIGHT as int, i) {
                    assert(rolled_tile(self.map.tiles@[i]));
                }
            }
            assert(random_fill(fill));
        }
        let r = self.settle();
        let ghost settled = *self;
        self.noise_seed = roll_dice(rng, 1, 65536) as u64;
        proof {
            reveal(settled_cave);
            assert(self.start_index() == settled.start_index());
            assert(settled_cave(fill, self, r));
            if r is Ok {
                let e = choose|e: int| playable(&settled.map, settled.start_index(), e);
                assert(playable(&self.map, self.start_index(), e));
                let x = self.starting_position.x as int;
                if x < 1 {
                    assert(self.map.tiles@[self.start_index()] == TileType::Floor);
                    assert(!(1 <= self.map.x_of(self.start_index()) <= self.map.width - 2));
                }
            }
        }
        r
    }

    /// Groups the floor tiles into spawn regions by the values of a noise
    /// field, one value per tile.
    pub fn assign_regions(&mut self, cell_values: &Vec<i32>)
        requires
            old(self).wf(),
            cell_values@.len() == old(self).map.tiles@.len(),
        ensures
            final(self).map == old(self).map,
            final(self).starting_position == old(self).starting_position,
            final(self).depth == old(self).depth,
            forall|id: i32| #[trigger]
                final(self).noise_areas@.contains_key(id) <==> region_members(
                    old(self).map.tiles@,
                    old(self).map.width as int,
                    old(self).map.height as int,
                    cell_values@,
                    id,
                    old(self).map.tiles@.len() as int,
                ).len() > 0,
            forall|id: i32| #[trigger]
                final(self).noise_areas@.contains_key(id) ==> final(self).noise_areas@[id]@ == region_members(
                    old(self).map.tiles@,
                    old(self).map.width as int,
                    old(self).map.height as int,
                    cell_values@,
                    id,
                    old(self).map.tiles@.len() as int,
                ),
    {
        self.noise_areas = generate_voronoi_spawn_regions(&self.map, cell_values);
    }
}

} // verus!
