use crate::components::Position;
use crate::map::{MAP_HEIGHT, MAP_WIDTH, TileMap, TileType};
use crate::map_builder::cellular_automata::is_inner;
use crate::map_builder::common::{
    finished_from,BuildError, generate_voronoi_spawn_regions, place_exit, playable, region_members};
use crate::random::roll_dice;
use rltk::RandomNumberGenerator;
use std::collections::HashMap;
use vstd::prelude::*;

verus! {

/// The most draws that one build spends on scattering its seeds.
pub const MAX_SEED_DRAWS: u32 = 1000000;

#[derive(PartialEq, Eq, Copy, Clone, Debug, Structural)]
pub enum DistanceAlgorithm {
    Pythagoras,
    Manhattan,
    Chebyshev,
}

/// Builds a level of cells around scattered seed points.
pub struct VoronoiBuilder {
    pub map: TileMap,
    pub starting_position: Position,
    pub depth: i32,
    pub noise_areas: HashMap<i32, Vec<usize>>,
    pub n_seeds: usize,
    pub distance_algorithm: DistanceAlgorithm,
    pub noise_seed: u64,
}

/// How far `(ax, ay)` is from `(bx, by)`: the squared straight-line
/// distance, the sum of the distances along both axes, or the larger of
/// the two.
pub open spec fn metric(algorithm: DistanceAlgorithm, ax: int, ay: int, bx: int, by: int) -> int {
    let dx = if ax >= bx {
        ax - bx
    } else {
        bx - ax
    };
    let dy = if ay >= by {
        ay - by
    } else {
        by - ay
    };
    match algorithm {
        DistanceAlgorithm::Pythagoras => dx * dx + dy * dy,
        DistanceAlgorithm::Manhattan => dx + dy,
        DistanceAlgorithm::Chebyshev => if dx > dy {
            dx
        } else {
            dy
        },
    }
}

/// Seed `s` is the nearest to `(x, y)`, and the first of the nearest.
pub open spec fn is_nearest(seeds: Seq<(i32, i32)>, algorithm: DistanceAlgorithm, x: int, y: int, s: int) -> bool {
    &&& 0 <= s < seeds.len()
    &&& forall|k: int|
        0 <= k < seeds.len() ==> metric(algorithm, x, y, seeds[s].0 as int, seeds[s].1 as int) <= #[trigger] metric(
            algorithm,
            x,
            y,
            seeds[k].0 as int,
            seeds[k].1 as int,
        ) && (k < s ==> metric(algorithm, x, y, seeds[s].0 as int, seeds[s].1 as int) < metric(
            algorithm,
            x,
            y,
            seeds[k].0 as int,
            seeds[k].1 as int,
        ))
}

/// Every cell belongs to the seed nearest to it.
pub open spec fn is_membership(
    member: Seq<usize>,
    seeds: Seq<(i32, i32)>,
    algorithm: DistanceAlgorithm,
    width: int,
) -> bool {
    forall|i: int| 0 <= i < member.len() ==> is_nearest(seeds, algorithm, i % width, i / width, #[trigger] member[i] as int)
}

/// 1 where the cells `i` and `j` belong to the same seed, and 0 where they do not.
pub open spec fn alike(member: Seq<usize>, i: int, j: int) -> int {
    if member[i] == member[j] {
        1
    } else {
        0
    }
}

/// How many of the four cells beside cell `i` belong to the same seed.
pub open spec fn kin_around(member: Seq<usize>, width: int, i: int) -> int {
    alike(member, i, i - 1) + alike(member, i, i + 1) + alike(member, i, i - width) + alike(member, i, i + width)
}

/// What carving makes of cell `i`: floor, where the cell lies off the rim
/// and fewer than two of the four cells beside it belong to its seed.
pub open spec fn cell_tile(member: Seq<usize>, width: int, height: int, i: int, before: TileType) -> TileType {
    if is_inner(width, height, i) && kin_around(member, width, i) < 2 {
        TileType::Floor
    } else {
        before
    }
}

/// What scattering, assigning and carving leaves of a map of solid
/// rock: `n` different seeds on the map's columns and on twice its rows,
/// every cell given to the seed nearest to it, and a cell carved where it
/// lies off the rim and fewer than two of the four cells beside it belong
/// to its seed.
pub open spec fn carved_cells(
    drawn: Seq<TileType>,
    seeds: Seq<(i32, i32)>,
    member: Seq<usize>,
    algorithm: DistanceAlgorithm,
    n: int,
) -> bool {
    &&& seeds.len() == n
    &&& n >= 1
    &&& forall|j: int, k: int| 0 <= j < k < seeds.len() ==> seeds[j] != seeds[k]
    &&& forall|k: int|
        0 <= k < seeds.len() ==> 1 <= (#[trigger] seeds[k]).0 <= MAP_WIDTH - 1 && 1 <= seeds[k].1 <= MAP_HEIGHT * 2 - 1
    &&& member.len() == MAP_WIDTH * MAP_HEIGHT
    &&& is_membership(member, seeds, algorithm, MAP_WIDTH as int)
    &&& drawn.len() == MAP_WIDTH * MAP_HEIGHT
    &&& forall|i: int|
        0 <= i < drawn.len() ==> #[trigger] drawn[i] == cell_tile(
            member,
            MAP_WIDTH as int,
            MAP_HEIGHT as int,
            i,
            TileType::Wall,
        )
}

/// Seeds lie within reach of the arithmetic.
pub open spec fn seeds_in_range(seeds: Seq<(i32, i32)>) -> bool {
    forall|k: int|
        0 <= k < seeds.len() ==> -0x3fff_ffff <= (#[trigger] seeds[k]).0 <= 0x3fff_ffff && -0x3fff_ffff <= seeds[k].1 <= 0x3fff_ffff
}

/// The distance between two points.
pub fn distance2d(algorithm: DistanceAlgorithm, ax: i32, ay: i32, bx: i32, by: i32) -> (d: i64)
    requires
        -0x3fff_ffff <= ax <= 0x3fff_ffff,
        -0x3fff_ffff <= ay <= 0x3fff_ffff,
        -0x3fff_ffff <= bx <= 0x3fff_ffff,
        -0x3fff_ffff <= by <= 0x3fff_ffff,
    ensures
        d == metric(algorithm, ax as int, ay as int, bx as int, by as int),
{
    let dx: i64 = if ax >= bx {
        ax as i64 - bx as i64
    } else {
        bx as i64 - ax as i64
    };
    let dy: i64 = if ay >= by {
        ay as i64 - by as i64
    } else {
        by as i64 - ay as i64
    };
    match algorithm {
        DistanceAlgorithm::Pythagoras => {
            proof {
                assert(0 <= dx * dx <= 0x7fff_fffe * 0x7fff_fffe) by (nonlinear_arith)
                    requires
                        0 <= dx <= 0x7fff_fffe,
                ;
                assert(0 <= dy * dy <= 0x7fff_fffe * 0x7fff_fffe) by (nonlinear_arith)
                    requires
                        0 <= dy <= 0x7fff_fffe,
                ;
            }
            dx * dx + dy * dy
        },
        DistanceAlgorithm::Manhattan => dx + dy,
        DistanceAlgorithm::Chebyshev => if dx > dy {
            dx
        } else {
            dy
        },
    }
}

/// The seed nearest to `(x, y)`; of several, the first.
pub fn nearest_seed(seeds: &Vec<(i32, i32)>, algorithm: DistanceAlgorithm, x: i32, y: i32) -> (s: usize)
    requires
        seeds@.len() >= 1,
        seeds_in_range(seeds@),
        -0x3fff_ffff <= x <= 0x3fff_ffff,
        -0x3fff_ffff <= y <= 0x3fff_ffff,
    ensures
        is_nearest(seeds@, algorithm, x as int, y as int, s as int),
{
    let mut best: usize = 0;
    let mut best_distance: i64 = distance2d(algorithm, x, y, seeds[0].0, seeds[0].1);
    let mut k: usize = 1;
    while k < seeds.len()
        invariant
            seeds@.len() >= 1,
            seeds_in_range(seeds@),
            -0x3fff_ffff <= x <= 0x3fff_ffff,
            -0x3fff_ffff <= y <= 0x3fff_ffff,
            1 <= k <= seeds@.len(),
            best < k,
            best_distance == metric(algorithm, x as int, y as int, seeds@[best as int].0 as int, seeds@[best as int].1 as int),
            forall|j: int|
                0 <= j < k ==> best_distance <= #[trigger] metric(
                    algorithm,
                    x as int,
                    y as int,
                    seeds@[j].0 as int,
                    seeds@[j].1 as int,
                ) && (j < best ==> best_distance < metric(
                    algorithm,
                    x as int,
                    y as int,
                    seeds@[j].0 as int,
                    seeds@[j].1 as int,
                )),
        decreases seeds@.len() - k,
    {
        let d: i64 = distance2d(algorithm, x, y, seeds[k].0, seeds[k].1);
        if d < best_distance {
            best = k;
            best_distance = d;
        }
        k += 1;
    }
    best
}

/// Whether `seeds` holds the point `(x, y)`.
pub fn holds_seed(seeds: &Vec<(i32, i32)>, x: i32, y: i32) -> (r: bool)
    ensures
        r == seeds@.contains((x, y)),
{
    let mut k: usize = 0;
    while k < seeds.len()
        invariant
            k <= seeds@.len(),
            forall|j: int| 0 <= j < k ==> seeds@[j] != (x, y),
        decreases seeds@.len() - k,
    {
        if seeds[k].0 == x && seeds[k].1 == y {
            return true;
        }
        k += 1;
    }
    false
}

impl VoronoiBuilder {
    /// The map has the standard size.
    pub open spec fn wf(&self) -> bool {
        &&& self.map.wf()
        &&& self.map.width == MAP_WIDTH
        &&& self.map.height == MAP_HEIGHT
    }

    /// Nothing has been built yet: the map is solid rock.
    pub open spec fn unbuilt(&self) -> bool {
        &&& self.wf()
        &&& forall|i: int| 0 <= i < self.map.tiles@.len() ==> #[trigger] self.map.tiles@[i] == TileType::Wall
    }

    /// The index of the starting position.
    pub open spec fn start_index(&self) -> int {
        self.map.idx(self.starting_position.x as int, self.starting_position.y as int)
    }

    pub fn new(depth: i32, distance_algorithm: DistanceAlgorithm, name: String) -> (builder: VoronoiBuilder)
        ensures
            builder.unbuilt(),
            builder.depth == depth,
            builder.map.depth == depth,
            builder.n_seeds == 64,
            builder.distance_algorithm == distance_algorithm,
            builder.starting_position == (Position { x: 0, y: 0 }),
            builder.noise_areas@.len() == 0,
    {
        VoronoiBuilder {
            map: TileMap::new(MAP_WIDTH as i32, MAP_HEIGHT as i32, depth, Some(TileType::Wall)),
            starting_position: Position { x: 0, y: 0 },
            depth,
            noise_areas: HashMap::new(),
            n_seeds: 64,
            distance_algorithm,
            noise_seed: 0,
        }
    }

    #[allow(dead_code)]
    pub fn pythagoras(depth: i32) -> (builder: VoronoiBuilder)
        ensures
            builder.unbuilt(),
            builder.depth == depth,
            builder.map.depth == depth,
            builder.n_seeds == 64,
            builder.distance_algorithm == DistanceAlgorithm::Pythagoras,
    {
        VoronoiBuilder::new(depth, DistanceAlgorithm::Pythagoras, "Pythagoras".to_string())
    }

    #[allow(dead_code)]
    pub fn manhattan(depth: i32) -> (builder: VoronoiBuilder)
        ensures
            builder.unbuilt(),
            builder.depth == depth,
            builder.map.depth == depth,
            builder.n_seeds == 64,
            builder.distance_algorithm == DistanceAlgorithm::Manhattan,
    {
        VoronoiBuilder::new(depth, DistanceAlgorithm::Manhattan, "Manhattan".to_string())
    }

    #[allow(dead_code)]
    pub fn chebyshev(depth: i32) -> (builder: VoronoiBuilder)
        ensures
            builder.unbuilt(),
            builder.depth == depth,
            builder.map.depth == depth,
            builder.n_seeds == 64,
            builder.distance_algorithm == DistanceAlgorithm::Chebyshev,
    {
        VoronoiBuilder::new(depth, DistanceAlgorithm::Chebyshev, "Chebyshev".to_string())
    }

    /// An independent copy of the map.
    pub fn get_map(&self) -> (map: TileMap)
        ensures
            map.same_shape(&self.map),
            map.tiles@ == self.map.tiles@,
            map.revealed_tiles@ == self.map.revealed_tiles@,
            map.visible_tiles@ == self.map.visible_tiles@,
            map.blocked@ == self.map.blocked@,
    {
        self.map.duplicate()
    }

    pub fn get_starting_position(&self) -> (position: Position)
        ensures
            position == self.starting_position,
    {
        self.starting_position
    }

    /// Draws seed points until `n_seeds` different ones are found:
    /// columns from 1 to one less than the map's width, rows from 1 to one
    /// less than twice its height.
    pub fn scatter(&self, rng: &mut RandomNumberGenerator) -> (r: Result<Vec<(i32, i32)>, BuildError>)
        requires
            self.wf(),
        ensures
            match r {
                Ok(seeds) => {
                    &&& seeds@.len() == self.n_seeds
                    &&& forall|j: int, k: int| 0 <= j < k < seeds@.len() ==> seeds@[j] != seeds@[k]
                    &&& forall|k: int|
                        0 <= k < seeds@.len() ==> 1 <= (#[trigger] seeds@[k]).0 <= self.map.width - 1 && 1
                            <= seeds@[k].1 <= self.map.height * 2 - 1
                },
                Err(e) => e == BuildError::StepLimit,
            },
            self.n_seeds == 0 ==> r is Ok,
    {
        let mut voronoi_seeds: Vec<(i32, i32)> = Vec::new();
        let mut draws: u32 = 0;
        while voronoi_seeds.len() < self.n_seeds
            invariant
                self.wf(),
                draws <= MAX_SEED_DRAWS,
                voronoi_seeds@.len() <= self.n_seeds,
                forall|j: int, k: int| 0 <= j < k < voronoi_seeds@.len() ==> voronoi_seeds@[j] != voronoi_seeds@[k],
                forall|k: int|
                    0 <= k < voronoi_seeds@.len() ==> 1 <= (#[trigger] voronoi_seeds@[k]).0 <= self.map.width - 1
                        && 1 <= voronoi_seeds@[k].1 <= self.map.height * 2 - 1,
            decreases MAX_SEED_DRAWS - draws,
        {
            if draws >= MAX_SEED_DRAWS {
                return Err(BuildError::StepLimit);
            }
            draws += 1;
            let vx: i32 = roll_dice(rng, 1, self.map.width - 1);
            let vy: i32 = roll_dice(rng, 1, self.map.height * 2 - 1);
            if !holds_seed(&voronoi_seeds, vx, vy) {
                voronoi_seeds.push((vx, vy));
            }
        }
        Ok(voronoi_seeds)
    }

    /// For every cell of the map, the seed that is nearest to it.
    pub fn membership(&self, seeds: &Vec<(i32, i32)>) -> (member: Vec<usize>)
        requires
            self.wf(),
            seeds@.len() >= 1,
            seeds_in_range(seeds@),
        ensures
            member@.len() == self.map.tiles@.len(),
            is_membership(member@, seeds@, self.distance_algorithm, self.map.width as int),
    {
        let n: usize = self.map.tiles.len();
        let w: usize = self.map.width as usize;
        let mut member: Vec<usize> = Vec::new();
        let mut i: usize = 0;
        while i < n
            invariant
                self.wf(),
                seeds@.len() >= 1,
                seeds_in_range(seeds@),
                n == self.map.tiles@.len(),
                w == self.map.width,
                i <= n,
                member@.len() == i,
                forall|j: int|
                    0 <= j < i ==> is_nearest(
                        seeds@,
                        self.distance_algorithm,
                        j % (self.map.width as int),
                        j / (self.map.width as int),
                        #[trigger] member@[j] as int,
                    ),
            decreases n - i,
        {
            proof {
                self.map.lemma_cell_of_index(i as int);
            }
            let x: i32 = (i % w) as i32;
            let y: i32 = (i / w) as i32;
            let s: usize = nearest_seed(seeds, self.distance_algorithm, x, y);
            member.push(s);
            i += 1;
        }
        member
    }

    /// Carves every cell off the rim of which fewer than two of the four
    /// cells beside it belong to the same seed.
    pub fn carve(&mut self, member: &Vec<usize>)
        requires
            old(self).wf(),
            member@.len() == old(self).map.tiles@.len(),
        ensures
            final(self).wf(),
            final(self).map.same_frame(&old(self).map),
            final(self).depth == old(self).depth,
            final(self).n_seeds == old(self).n_seeds,
            final(self).distance_algorithm == old(self).distance_algorithm,
            final(self).starting_position == old(self).starting_position,
            forall|i: int|
                0 <= i < final(self).map.tiles@.len() ==> #[trigger] final(self).map.tiles@[i] == cell_tile(
                    member@,
                    MAP_WIDTH as int,
                    MAP_HEIGHT as int,
                    i,
                    old(self).map.tiles@[i],
                ),
    {
        let ghost w = self.map.width as int;
        let ghost h = self.map.height as int;
        let width: usize = self.map.width as usize;
        let mut y: i32 = 1;
        while y < self.map.height - 1
            invariant
                self.wf(),
                old(self).wf(),
                self.map.same_frame(&old(self).map),
                self.depth == old(self).depth,
                self.n_seeds == old(self).n_seeds,
                self.distance_algorithm == old(self).distance_algorithm,
                self.starting_position == old(self).starting_position,
                member@.len() == self.map.tiles@.len(),
                w == MAP_WIDTH,
                h == MAP_HEIGHT,
                width == MAP_WIDTH,
                1 <= y,
                forall|i: int|
                    0 <= i < self.map.tiles@.len() ==> #[trigger] self.map.tiles@[i] == (if self.map.y_of(i) < y {
                        cell_tile(member@, w, h, i, old(self).map.tiles@[i])
                    } else {
                        old(self).map.tiles@[i]
                    }),
            decreases self.map.height - y,
        {
            let mut x: i32 = 1;
            while x < self.map.width - 1
                invariant
                    self.wf(),
                    old(self).wf(),
                    self.map.same_frame(&old(self).map),
                    self.depth == old(self).depth,
                    self.n_seeds == old(self).n_seeds,
                    self.distance_algorithm == old(self).distance_algorithm,
                    self.starting_position == old(self).starting_position,
                    member@.len() == self.map.tiles@.len(),
                    w == MAP_WIDTH,
                    h == MAP_HEIGHT,
                    width == MAP_WIDTH,
                    1 <= y < self.map.height - 1,
                    1 <= x,
                    forall|i: int|
                        0 <= i < self.map.tiles@.len() ==> #[trigger] self.map.tiles@[i] == (if self.map.y_of(i) < y
                            || (self.map.y_of(i) == y && self.map.x_of(i) < x) {
                            cell_tile(member@, w, h, i, old(self).map.tiles@[i])
                        } else {
                            old(self).map.tiles@[i]
                        }),
                decreases self.map.width - x,
            {
                let idx: usize = self.map.xy_idx(x, y);
                proof {
                    self.map.lemma_idx_bounds(x as int, y as int);
                    self.map.lemma_idx_bounds(x as int, y - 1);
                    self.map.lemma_idx_bounds(x as int, y + 1);
                    assert((y - 1) * w == y * w - w) by (nonlinear_arith);
                    assert((y + 1) * w == y * w + w) by (nonlinear_arith);
                }
                let seed: usize = member[idx];
                let mut kin: i32 = 0;
                if member[idx - 1] == seed {
                    kin += 1;
                }
                if member[idx + 1] == seed {
                    kin += 1;
                }
                if member[idx - width] == seed {
                    kin += 1;
                }
                if member[idx + width] == seed {
                    kin += 1;
                }
                proof {
                    assert(kin == kin_around(member@, w, idx as int));
                    assert(is_inner(w, h, idx as int));
                }
                if kin < 2 {
                    self.map.set_tile(x, y, TileType::Floor);
                } else {
                    proof {
                        assert forall|i: int|
                            0 <= i < self.map.tiles@.len() && #[trigger] self.map.y_of(i) == y && self.map.x_of(i)
                                == x implies i == idx by {
                            self.map.lemma_cell_of_index(i);
                        }
                    }
                }
                x += 1;
            }
            proof {
                assert forall|i: int| 0 <= i < self.map.tiles@.len() implies #[trigger] self.map.tiles@[i] == (
                if self.map.y_of(i) < y + 1 {
                    cell_tile(member@, w, h, i, old(self).map.tiles@[i])
                } else {
                    old(self).map.tiles@[i]
                }) by {
                    self.map.lemma_cell_of_index(i);
                }
            }
            y += 1;
        }
        proof {
            assert forall|i: int| 0 <= i < self.map.tiles@.len() implies #[trigger] self.map.tiles@[i] == cell_tile(
                member@,
                w,
                h,
                i,
                old(self).map.tiles@[i],
            ) by {
                self.map.lemma_cell_of_index(i);
            }
        }
    }

    /// Scatters the seeds, gives every cell to its nearest seed, carves
    /// the cells, and, starting from the middle of the map, prunes what is
    /// cut off and puts the stairs on the farthest floor tile. Fails with
    /// `StepLimit` where scattering gives up, with `NoStart` where there
    /// is no seed to scatter or the middle of the map is not carved, and
    /// with `NoExit` where nothing but the start can be reached.
    pub fn build(&mut self, rng: &mut RandomNumberGenerator) -> (r: Result<(), BuildError>)
        requires
            old(self).unbuilt(),
        ensures
            final(self).wf(),
            final(self).map.same_shape(&old(self).map),
            final(self).depth == old(self).depth,
            final(self).n_seeds == old(self).n_seeds,
            final(self).distance_algorithm == old(self).distance_algorithm,
            final(self).starting_position.x == MAP_WIDTH / 2,
            final(self).starting_position.y == MAP_HEIGHT / 2,
            match r {
                Ok(()) => {
                    &&& exists|e: int| playable(&final(self).map, final(self).start_index(), e)
                    &&& 1 <= final(self).noise_seed <= 65536
                },
                Err(e) => e == BuildError::StepLimit || e == BuildError::NoStart || e == BuildError::NoExit,
            },
            old(self).n_seeds == 0 ==> r is Err && r != Err::<(), BuildError>(BuildError::NoExit),
            r is Err ==> crate::map_builder::common::plain_tiles(final(self).map.tiles@),
            r != Err::<(), BuildError>(BuildError::StepLimit) && old(self).n_seeds > 0 ==> exists|
                drawn: Seq<TileType>,
                seeds: Seq<(i32, i32)>,
                member: Seq<usize>,
            | #[trigger]
                carved_cells(drawn, seeds, member, final(self).distance_algorithm, final(self).n_seeds as int)
                    && finished_from(
                    drawn,
                    MAP_WIDTH as int,
                    MAP_HEIGHT as int,
                    final(self).start_index(),
                    final(self).map.tiles@,
                    r,
                ),
    {
        let center_x: i32 = self.map.width / 2;
        let center_y: i32 = self.map.height / 2;
        self.starting_position = Position { x: center_x, y: center_y };
        let start_idx: usize = self.map.xy_idx(center_x, center_y);
        let seeds: Vec<(i32, i32)> = match self.scatter(rng) {
            Err(e) => {
                return Err(e);
            },
            Ok(found) => found,
        };
        if seeds.len() == 0 {
            return Err(BuildError::NoStart);
        }
        let member: Vec<usize> = self.membership(&seeds);
        self.carve(&member);
        let ghost drawn = self.map.tiles@;
        proof {
            self.map.lemma_idx_bounds(center_x as int, center_y as int);
            assert(self.start_index() == start_idx);
            assert forall|i: int| 0 <= i < drawn.len() implies #[trigger] drawn[i] == cell_tile(
                member@,
                MAP_WIDTH as int,
                MAP_HEIGHT as int,
                i,
                TileType::Wall,
            ) by {
                assert(old(self).map.tiles@[i] == TileType::Wall);
            }
            assert(carved_cells(drawn, seeds@, member@, self.distance_algorithm, self.n_seeds as int));
        }
        if self.map.tiles[start_idx] != TileType::Floor {
            proof {
                assert(finished_from(
                    drawn,
                    MAP_WIDTH as int,
                    MAP_HEIGHT as int,
                    self.start_index(),
                    self.map.tiles@,
                    Err::<(), BuildError>(BuildError::NoStart),
                ));
            }
            return Err(BuildError::NoStart);
        }
        proof {
            assert forall|i: int| 0 <= i < self.map.tiles@.len() implies #[trigger] self.map.tiles@[i]
                != TileType::DownStairs && self.map.tiles@[i] != TileType::Placeholder by {
                assert(old(self).map.tiles@[i] == TileType::Wall);
            }
        }
        let exit: Option<usize> = place_exit(&mut self.map, start_idx);
        self.noise_seed = roll_dice(rng, 1, 65536) as u64;
        proof {
            assert(self.start_index() == start_idx);
            let r: Result<(), BuildError> = if exit is Some {
                Ok(())
            } else {
                Err(BuildError::NoExit)
            };
            assert(carved_cells(drawn, seeds@, member@, self.distance_algorithm, self.n_seeds as int)
                && finished_from(drawn, MAP_WIDTH as int, MAP_HEIGHT as int, self.start_index(), self.map.tiles@, r));
        }
        match exit {
            None => Err(BuildError::NoExit),
            Some(e) => {
                proof {
                    assert(playable(&self.map, start_idx as int, e as int));
                    assert(self.start_index() == start_idx);
                }
                Ok(())
            },
        }
    }

    /// Groups the floor tiles into spawn regions by the values of a noise
    /// field, one value per tile.
    pub fn assign_regions(&mut self, cell_values: &Vec<i32>)
        requires
            old(self).wf(),
            cell_values@.len() == old(self).map.tiles@.len(),
        ensures
            final(self).map == old(self).map,
            final(self).starting_position == old(self).starting_position,
            final(self).depth == old(self).depth,
            forall|id: i32| #[trigger]
                final(self).noise_areas@.contains_key(id) <==> region_members(
                    old(self).map.tiles@,
                    old(self).map.width as int,
                    old(self).map.height as int,
                    cell_values@,
                    id,
                    old(self).map.tiles@.len() as int,
                ).len() > 0,
            forall|id: i32| #[trigger]
                final(self).noise_areas@.contains_key(id) ==> final(self).noise_areas@[id]@ == region_members(
                    old(self).map.tiles@,
                    old(self).map.width as int,
                    old(self).map.height as int,
                    cell_values@,
                    id,
                    old(self).map.tiles@.len() as int,
                ),
    {
        self.noise_areas = generate_voronoi_spawn_regions(&self.map, cell_values);
    }
}

} // verus!
