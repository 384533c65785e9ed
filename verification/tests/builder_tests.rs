use dungeon_gen::components::Position;
use dungeon_gen::map::{TileMap, TileType};
use dungeon_gen::map_builder::bsp_dungeon::{sub_rect, BspDungeonBuilder};
use dungeon_gen::map_builder::bsp_interior::{carve_room, halves, BspInteriorBuilder};
use dungeon_gen::map_builder::cellular_automata::{seed_tile, smooth, CellularAutomataBuilder};
use dungeon_gen::map_builder::common::{apply_room_to_map, draw_corridor, is_joined, BuildError, Symmetry, NO_CAP};
use dungeon_gen::map_builder::distance::{distance_field, MAX_COST, UNREACHED};
use dungeon_gen::map_builder::dla::{DLAAlgorithm, DLABuilder};
use dungeon_gen::map_builder::drunkard::{dig, DrunkSpawnMode, DrunkardSettings, DrunkardWalkBuilder};
use dungeon_gen::map_builder::maze::{Cell, Grid, MazeBuilder};
use dungeon_gen::map_builder::prefab_builder::PrefabBuilder;
use dungeon_gen::map_builder::simple_map::{intersects_any, SimpleMapBuilder};
use dungeon_gen::map_builder::voronoi::{
    distance2d, holds_seed, nearest_seed, DistanceAlgorithm, VoronoiBuilder,
};
use dungeon_gen::map_builder::waveform_collapse::image_loader::{load_layers, load_rex_map, RexLayer};
use dungeon_gen::map_builder::waveform_collapse::constraints::patterns_to_constraints;
use dungeon_gen::map_builder::waveform_collapse::solver::Solver;
use dungeon_gen::map_builder::waveform_collapse::WaveformCollapseBuilder;
use dungeon_gen::map_builder::{assemble, attempt, generate, pick_builder, random_builder, MapBuilder};
use dungeon_gen::rect::Rect;
use rltk::RandomNumberGenerator;

fn count(map: &TileMap, kind: TileType) -> usize {
    map.tiles.iter().filter(|t| **t == kind).count()
}

fn unreached_floor(map: &TileMap, start: Position, cap: u32) -> usize {
    let mut copy = map.duplicate();
    copy.populate_blocked();
    let dist = distance_field(&copy, copy.xy_idx(start.x, start.y), cap);
    (0..copy.tiles.len())
        .filter(|i| {
            (copy.tiles[*i] == TileType::Floor || copy.tiles[*i] == TileType::DownStairs)
                && dist[*i] == UNREACHED
        })
        .count()
}

fn check_level(map: &TileMap, start: Position) {
    assert_eq!(map.width, 80);
    assert_eq!(map.height, 43);
    assert_eq!(map.tiles.len(), 3440);
    assert_eq!(count(map, TileType::DownStairs), 1);
    assert_eq!(count(map, TileType::Placeholder), 0);
    assert!(start.x >= 0 && start.x < 80 && start.y >= 0 && start.y < 43);
}

fn check_pruned_level(map: &TileMap, start: Position) {
    check_level(map, start);
    assert_eq!(map.tile(start.x, start.y), TileType::Floor);
    assert_eq!(unreached_floor(map, start, MAX_COST), 0);
}

#[test]
fn simple_rooms_are_apart_and_joined() {
    let mut rng = RandomNumberGenerator::seeded(42);
    let mut builder = SimpleMapBuilder::new(1);
    assert_eq!(builder.build(&mut rng), Ok(()));
    let map = builder.get_map();
    let start = builder.get_starting_position();
    check_level(&map, start);
    assert!(builder.rooms.len() >= 2);
    assert!(builder.rooms.len() <= 30);
    for i in 0..builder.rooms.len() {
        for j in 0..i {
            assert!(!builder.rooms[i].intersect(&builder.rooms[j]));
        }
        let r = builder.rooms[i];
        assert!(r.x1 >= 0 && r.x2 + 1 < 80 && r.y1 >= 0 && r.y2 + 1 < 43);
        assert!(r.x2 - r.x1 >= 6 && r.x2 - r.x1 <= 9);
        assert!(r.y2 - r.y1 >= 6 && r.y2 - r.y1 <= 9);
    }
    assert_eq!((start.x, start.y), builder.rooms[0].center());
    let last = builder.rooms[builder.rooms.len() - 1].center();
    assert_eq!(map.tile(last.0, last.1), TileType::DownStairs);
    assert_eq!(map.tile(start.x, start.y), TileType::Floor);
    assert_eq!(unreached_floor(&map, start, 4_000_000_000), 0);
    assert_eq!(builder.spawn(), builder.rooms[1..].to_vec());
}

#[test]
fn simple_rooms_hold_for_many_seeds() {
    for seed in 0..40u64 {
        let mut rng = RandomNumberGenerator::seeded(seed);
        let mut builder = SimpleMapBuilder::new(2);
        assert_eq!(builder.build(&mut rng), Ok(()));
        let map = builder.get_map();
        let start = builder.get_starting_position();
        check_level(&map, start);
        assert!(!builder.rooms.is_empty());
        assert_eq!(unreached_floor(&map, start, 4_000_000_000), 0);
        assert_eq!(map.depth, 2);
    }
}

#[test]
fn intersects_any_checks_every_room() {
    let rooms = vec![Rect::new(0, 0, 4, 4), Rect::new(10, 10, 4, 4)];
    assert!(intersects_any(&rooms, &Rect::new(12, 12, 6, 6)));
    assert!(intersects_any(&rooms, &Rect::new(4, 4, 2, 2)));
    assert!(!intersects_any(&rooms, &Rect::new(5, 5, 4, 4)));
    assert!(!intersects_any(&Vec::new(), &Rect::new(5, 5, 4, 4)));
}

#[test]
fn get_map_is_a_snapshot() {
    let mut rng = RandomNumberGenerator::seeded(5);
    let mut builder = SimpleMapBuilder::new(1);
    assert_eq!(builder.build(&mut rng), Ok(()));
    let mut copy = builder.get_map();
    let before = builder.get_map().tiles;
    copy.tiles[0] = TileType::DownStairs;
    copy.tiles[1] = TileType::Placeholder;
    assert_eq!(builder.get_map().tiles, before);
}

#[test]
fn bsp_dungeon_rooms_are_sorted_and_joined() {
    let mut built = 0;
    for seed in 0..20u64 {
        let mut rng = RandomNumberGenerator::seeded(seed);
        let mut builder = BspDungeonBuilder::new(1);
        match builder.build(&mut rng) {
            Ok(()) => {
                built += 1;
                let map = builder.get_map();
                let start = builder.get_starting_position();
                check_level(&map, start);
                for pair in builder.rooms.windows(2) {
                    assert!(pair[0].x1 <= pair[1].x1);
                }
                for r in builder.rooms.iter() {
                    assert!(r.x1 >= 3 && r.x2 <= 76 && r.y1 >= 3 && r.y2 <= 40);
                    assert!(r.x2 - r.x1 >= 4 && r.x2 - r.x1 <= 10);
                    let c = r.center();
                    assert!(
                        map.tile(c.0, c.1) == TileType::Floor
                            || map.tile(c.0, c.1) == TileType::DownStairs
                    );
                }
                assert_eq!((start.x, start.y), builder.rooms[0].center());
                let last = builder.rooms[builder.rooms.len() - 1].center();
                assert_eq!(map.tile(last.0, last.1), TileType::DownStairs);
                assert_eq!(unreached_floor(&map, start, 4_000_000_000), 0);
                assert_eq!(builder.spawn().len(), builder.rooms.len() - 1);
            }
            Err(e) => {
                assert!(e == BuildError::NoRooms || e == BuildError::NoExit);
                assert_eq!(e == BuildError::NoRooms, builder.rooms.is_empty());
            }
        }
    }
    assert!(built >= 15);
}

#[test]
fn bsp_dungeon_quarters_a_rectangle() {
    let mut builder = BspDungeonBuilder::new(1);
    builder.add_subrects(Rect::new(2, 2, 75, 38));
    assert_eq!(
        builder.rects,
        vec![
            Rect::new(2, 2, 37, 19),
            Rect::new(2, 21, 37, 19),
            Rect::new(39, 2, 37, 19),
            Rect::new(39, 21, 37, 19)
        ]
    );
    builder.rects.clear();
    builder.add_subrects(Rect::new(5, 5, 1, 1));
    assert_eq!(
        builder.rects,
        vec![
            Rect::new(5, 5, 1, 1),
            Rect::new(5, 6, 1, 1),
            Rect::new(6, 5, 1, 1),
            Rect::new(6, 6, 1, 1)
        ]
    );
}

#[test]
fn bsp_dungeon_needs_walls_around_a_room() {
    let mut builder = BspDungeonBuilder::new(1);
    assert!(builder.is_possible(Rect::new(3, 3, 5, 5)));
    assert!(!builder.is_possible(Rect::new(2, 3, 5, 5)));
    assert!(!builder.is_possible(Rect::new(3, 2, 5, 5)));
    assert!(builder.is_possible(Rect::new(71, 35, 5, 5)));
    assert!(!builder.is_possible(Rect::new(72, 35, 5, 5)));
    assert!(!builder.is_possible(Rect::new(71, 36, 5, 5)));
    assert!(!builder.is_possible(Rect::new(200, 200, 5, 5)));
    builder.map.set_tile(10, 10, TileType::Floor);
    assert!(builder.is_possible(Rect::new(5, 5, 3, 3)));
    assert!(!builder.is_possible(Rect::new(5, 6, 3, 3)));
    assert!(!builder.is_possible(Rect::new(12, 11, 3, 3)));
    assert!(builder.is_possible(Rect::new(13, 5, 3, 3)));
    assert!(builder.is_possible(Rect::new(5, 13, 3, 3)));
    assert!(!builder.is_possible(Rect::new(5, 12, 3, 3)));
}

#[test]
fn bsp_dungeon_draws_rooms_of_four_to_ten() {
    let builder = BspDungeonBuilder::new(1);
    let mut rng = RandomNumberGenerator::seeded(9);
    for _ in 0..200 {
        let from = Rect::new(10, 20, 30, 2);
        let room = builder.get_random_sub_rect(from, &mut rng);
        assert!(room.x1 >= 10 && room.x1 <= 15);
        assert!(room.y1 >= 20 && room.y1 <= 25);
        assert!(room.x2 - room.x1 >= 4 && room.x2 - room.x1 <= 10);
        assert_eq!(room.y2 - room.y1, 4);
    }
}

#[test]
fn bsp_interior_fills_the_map_with_rooms() {
    for seed in 0..20u64 {
        let mut rng = RandomNumberGenerator::seeded(seed);
        let mut builder = BspInteriorBuilder::new(3);
        assert_eq!(builder.build(&mut rng), Ok(()));
        let map = builder.get_map();
        let start = builder.get_starting_position();
        check_level(&map, start);
        assert!(builder.rooms.len() >= 2);
        for r in builder.rooms.iter() {
            assert!(r.x1 >= 1 && r.x2 <= 79 && r.y1 >= 1 && r.y2 <= 42);
            assert!(r.x2 - r.x1 >= 3 && r.y2 - r.y1 >= 3);
            for y in r.y1..r.y2 {
                for x in r.x1..r.x2 {
                    assert!(
                        map.tile(x, y) == TileType::Floor || map.tile(x, y) == TileType::DownStairs
                    );
                }
            }
        }
        assert_eq!((start.x, start.y), builder.rooms[0].center());
        assert_eq!(map.tile(start.x, start.y), TileType::Floor);
        assert_eq!(unreached_floor(&map, start, 4_000_000_000), 0);
        assert_eq!(count(&map, TileType::Void), 0);
    }
}

#[test]
fn carve_room_spares_the_first_and_last_cell() {
    let mut map = TileMap::new(4, 3, 1, Some(TileType::Wall));
    carve_room(&mut map, Rect { x1: 0, x2: 4, y1: 0, y2: 3 });
    for i in 0..12usize {
        let expected = if i == 0 || i == 11 { TileType::Wall } else { TileType::Floor };
        assert_eq!(map.tiles[i], expected);
    }
    let mut part = TileMap::new(6, 5, 1, Some(TileType::Wall));
    carve_room(&mut part, Rect { x1: 2, x2: 4, y1: 1, y2: 3 });
    assert_eq!(count(&part, TileType::Floor), 4);
    assert_eq!(part.tile(2, 1), TileType::Floor);
    assert_eq!(part.tile(3, 2), TileType::Floor);
    assert_eq!(part.tile(4, 2), TileType::Wall);
    assert_eq!(part.tile(3, 3), TileType::Wall);
}

#[test]
fn smoothing_follows_the_count_of_walls_around() {
    let mut map = TileMap::new(5, 5, 1, Some(TileType::Floor));
    map.set_tile(0, 0, TileType::Wall);
    map.set_tile(1, 0, TileType::Wall);
    map.set_tile(2, 0, TileType::Wall);
    map.set_tile(0, 1, TileType::Wall);
    map.set_tile(0, 2, TileType::Wall);
    map.set_tile(3, 3, TileType::Wall);
    smooth(&mut map);
    assert_eq!(map.tile(1, 1), TileType::Wall);
    assert_eq!(map.tile(2, 1), TileType::Floor);
    assert_eq!(map.tile(1, 2), TileType::Floor);
    assert_eq!(map.tile(2, 2), TileType::Floor);
    assert_eq!(map.tile(3, 3), TileType::Wall);
    assert_eq!(map.tile(3, 1), TileType::Floor);
    assert_eq!(map.tile(0, 0), TileType::Wall);
    assert_eq!(map.tile(4, 4), TileType::Floor);
    assert_eq!(map.tile(3, 0), TileType::Floor);
}

#[test]
fn cellular_automata_start_is_floor() {
    let mut built = 0;
    for seed in 1..40u64 {
        let mut rng = RandomNumberGenerator::seeded(seed);
        let mut builder = CellularAutomataBuilder::new(1);
        match builder.build(&mut rng) {
            Ok(()) => {
                built += 1;
                let map = builder.get_map();
                let start = builder.get_starting_position();
                check_pruned_level(&map, start);
                assert_eq!(start.y, 21);
                assert!(start.x <= 40);
                for x in (start.x + 1)..=40 {
                    assert_ne!(map.tile(x, 21), TileType::Floor);
                }
                assert!(builder.noise_seed >= 1 && builder.noise_seed <= 65536);
            }
            Err(e) => assert!(e == BuildError::NoStart || e == BuildError::NoExit),
        }
    }
    assert!(built >= 20);
}

#[test]
fn settling_solid_rock_finds_no_start() {
    let mut builder = CellularAutomataBuilder::new(1);
    assert_eq!(builder.settle(), Err(BuildError::NoStart));
    assert_eq!(count(&builder.map, TileType::Wall), 3440);
}

#[test]
fn settling_smooths_fifteen_times_then_prunes() {
    let mut builder = CellularAutomataBuilder::new(1);
    let mut by_hand = TileMap::new(80, 43, 1, Some(TileType::Wall));
    for y in 1..42 {
        for x in 1..79 {
            if (x * 5 + y * 3) % 7 < 4 || (x / 3 + y / 2) % 5 == 0 {
                builder.map.set_tile(x, y, TileType::Floor);
                by_hand.set_tile(x, y, TileType::Floor);
            }
        }
    }
    for _ in 0..15 {
        smooth(&mut by_hand);
    }
    let start_x = dungeon_gen::map_builder::common::find_floor_leftward(&by_hand, 40, 21);
    let r = builder.settle();
    match start_x {
        None => assert_eq!(r, Err(BuildError::NoStart)),
        Some(fx) => {
            let start = by_hand.xy_idx(fx, 21);
            let exit = dungeon_gen::map_builder::common::place_exit(&mut by_hand, start);
            assert_eq!(builder.starting_position, Position { x: fx, y: 21 });
            assert_eq!(builder.map.tiles, by_hand.tiles);
            match exit {
                None => assert_eq!(r, Err(BuildError::NoExit)),
                Some(e) => {
                    assert_eq!(r, Ok(()));
                    assert_eq!(builder.map.tiles[e], TileType::DownStairs);
                    check_pruned_level(&builder.map, builder.starting_position);
                }
            }
        }
    }
}

#[test]
fn regions_are_assigned_from_cell_values() {
    let mut rng = RandomNumberGenerator::seeded(1);
    let mut builder = DrunkardWalkBuilder::open_area(1);
    assert_eq!(builder.build(&mut rng), Ok(()));
    let values: Vec<i32> = (0..3440).map(|i| (i % 80) / 20).collect();
    builder.assign_regions(&values);
    let mut listed = 0;
    for (id, members) in builder.noise_areas.iter() {
        for m in members.iter() {
            assert_eq!(values[*m], *id);
            assert_eq!(builder.map.tiles[*m], TileType::Floor);
            listed += 1;
        }
    }
    assert_eq!(listed, count(&builder.map, TileType::Floor));
}

#[test]
fn drunkard_settings_are_the_three_configurations() {
    let a = DrunkardWalkBuilder::open_area(1).settings;
    assert_eq!(a.spawn_mode, DrunkSpawnMode::StartingPoint);
    assert_eq!(a.lifetime, 400);
    assert_eq!(a.floor_percent, 50);
    let b = DrunkardWalkBuilder::open_halls(1).settings;
    assert_eq!(b.spawn_mode, DrunkSpawnMode::Random);
    assert_eq!(b.lifetime, 400);
    assert_eq!(b.floor_percent, 50);
    let c = DrunkardWalkBuilder::winding_passages(1).settings;
    assert_eq!(c.spawn_mode, DrunkSpawnMode::StartingPoint);
    assert_eq!(c.lifetime, 100);
    assert_eq!(c.floor_percent, 40);
}

#[test]
fn drunkard_walks_reach_their_share_of_floor() {
    for seed in 0..4u64 {
        for kind in 0..3 {
            let mut rng = RandomNumberGenerator::seeded(seed);
            let mut builder = match kind {
                0 => DrunkardWalkBuilder::open_area(1),
                1 => DrunkardWalkBuilder::open_halls(1),
                _ => DrunkardWalkBuilder::winding_passages(1),
            };
            assert_eq!(builder.build(&mut rng), Ok(()));
            let map = builder.get_map();
            let start = builder.get_starting_position();
            assert_eq!(start, Position { x: 40, y: 21 });
            check_pruned_level(&map, start);
            for y in 0..43 {
                for x in 0..80 {
                    if x < 2 || x > 78 || y < 2 || y > 41 {
                        assert_eq!(map.tile(x, y), TileType::Wall);
                    }
                }
            }
            if kind == 0 || kind == 2 {
                let wanted = if kind == 0 { 1720 } else { 1376 };
                assert!(count(&map, TileType::Floor) + 1 >= wanted);
            }
        }
    }
}

#[test]
fn drunkard_without_floor_to_carve_has_no_exit() {
    let mut rng = RandomNumberGenerator::seeded(1);
    let mut builder = DrunkardWalkBuilder::new(
        1,
        DrunkardSettings { spawn_mode: DrunkSpawnMode::StartingPoint, lifetime: 0, floor_percent: 0 },
    );
    assert_eq!(builder.build(&mut rng), Err(BuildError::NoExit));
    assert_eq!(count(&builder.map, TileType::Floor), 1);
    assert_eq!(builder.map.tile(40, 21), TileType::Floor);
}

#[test]
fn drunkard_that_never_digs_hits_the_step_limit() {
    let mut rng = RandomNumberGenerator::seeded(1);
    let mut builder = DrunkardWalkBuilder::new(
        1,
        DrunkardSettings { spawn_mode: DrunkSpawnMode::StartingPoint, lifetime: 0, floor_percent: 50 },
    );
    assert_eq!(builder.build(&mut rng), Err(BuildError::StepLimit));
}

#[test]
fn dig_carves_walls_only() {
    let mut map = TileMap::new(4, 4, 1, Some(TileType::Wall));
    map.set_tile(1, 1, TileType::DownStairs);
    dig(&mut map, 1, 1);
    dig(&mut map, 2, 2);
    assert_eq!(map.tile(1, 1), TileType::DownStairs);
    assert_eq!(map.tile(2, 2), TileType::Floor);
    assert_eq!(count(&map, TileType::Wall), 14);
}

#[test]
fn maze_cells_lose_the_wall_between_them() {
    let mut a = Cell::new(2, 3);
    assert_eq!(a.walls, [true, true, true, true]);
    assert!(!a.visited);
    assert_eq!((a.row, a.column), (2, 3));
    let mut right = Cell::new(2, 4);
    a.remove_walls(&mut right);
    assert_eq!(a.walls, [true, false, true, true]);
    assert_eq!(right.walls, [true, true, true, false]);
    let mut above = Cell::new(1, 3);
    a.remove_walls(&mut above);
    assert_eq!(a.walls, [false, false, true, true]);
    assert_eq!(above.walls, [true, true, false, true]);
    let mut below = Cell::new(3, 3);
    a.remove_walls(&mut below);
    assert_eq!(a.walls, [false, false, false, true]);
    assert_eq!(below.walls, [false, true, true, true]);
    let mut left = Cell::new(2, 2);
    a.remove_walls(&mut left);
    assert_eq!(a.walls, [false, false, false, false]);
    assert_eq!(left.walls, [true, false, true, true]);
    let mut far = Cell::new(7, 7);
    let mut b = Cell::new(0, 0);
    b.remove_walls(&mut far);
    assert_eq!(b.walls, [true, true, true, true]);
    assert_eq!(far.walls, [true, true, true, true]);
}

#[test]
fn maze_grid_knows_its_cells() {
    let mut grid = Grid::new(4, 3);
    assert_eq!(grid.cells.len(), 12);
    assert_eq!((grid.cells[6].row, grid.cells[6].column), (1, 2));
    assert_eq!(grid.calculate_index(1, 2), 6);
    assert_eq!(grid.calculate_index(0, 0), 0);
    assert_eq!(grid.calculate_index(2, 3), 11);
    assert_eq!(grid.calculate_index(-1, 0), -1);
    assert_eq!(grid.calculate_index(0, -1), -1);
    assert_eq!(grid.calculate_index(3, 0), -1);
    assert_eq!(grid.calculate_index(0, 4), -1);
    assert_eq!(grid.get_available_neighbours(), vec![1usize, 4]);
    grid.current = 5;
    assert_eq!(grid.get_available_neighbours(), vec![1usize, 6, 9, 4]);
    grid.cells[6].visited = true;
    grid.cells[1].visited = true;
    assert_eq!(grid.get_available_neighbours(), vec![9usize, 4]);
    grid.cells[9].visited = true;
    let mut rng = RandomNumberGenerator::seeded(1);
    assert_eq!(grid.find_next_cell(&mut rng), Some(4));
    grid.cells[4].visited = true;
    assert_eq!(grid.find_next_cell(&mut rng), None);
}

#[test]
fn maze_is_drawn_two_tiles_apart() {
    let mut grid = Grid::new(2, 2);
    grid.cells[0].walls[1] = false;
    grid.cells[1].walls[3] = false;
    grid.cells[1].walls[2] = false;
    grid.cells[3].walls[0] = false;
    let mut map = TileMap::new(8, 8, 1, None);
    grid.copy_to_map(&mut map);
    let mut floor = Vec::new();
    for y in 0..8 {
        for x in 0..8 {
            if map.tile(x, y) == TileType::Floor {
                floor.push((x, y));
            } else {
                assert_eq!(map.tile(x, y), TileType::Wall);
            }
        }
    }
    assert_eq!(floor, vec![(2, 2), (3, 2), (4, 2), (4, 3), (2, 4), (4, 4)]);
}

#[test]
fn maze_visits_every_cell() {
    let mut rng = RandomNumberGenerator::seeded(4);
    let mut grid = Grid::new(38, 19);
    let mut map = TileMap::new(80, 43, 1, None);
    grid.generate_maze(&mut rng, &mut map);
    assert!(grid.cells.iter().all(|c| c.visited));
    assert_eq!(count(&map, TileType::Floor), 38 * 19 + (38 * 19 - 1));
    assert_eq!(count(&map, TileType::Wall), 3440 - (2 * 38 * 19 - 1));
}

#[test]
fn maze_builder_prunes_beyond_the_cap() {
    for seed in 0..5u64 {
        let mut rng = RandomNumberGenerator::seeded(seed);
        let mut builder = MazeBuilder::new(1);
        assert_eq!(builder.build(&mut rng), Ok(()));
        let map = builder.get_map();
        let start = builder.get_starting_position();
        assert_eq!(start, Position { x: 2, y: 2 });
        check_pruned_level(&map, start);
    }
}

#[test]
fn dla_builders_have_their_settings() {
    let a = DLABuilder::walk_inwards(2);
    assert_eq!(a.algorithm, DLAAlgorithm::WalkInwards);
    assert_eq!((a.brush_size, a.symmetry, a.floor_percent), (1, Symmetry::Neither, 25));
    assert_eq!(a.name, "Walk Inwards");
    let b = DLABuilder::walk_outwards(2);
    assert_eq!(b.algorithm, DLAAlgorithm::WalkOutwards);
    assert_eq!((b.brush_size, b.symmetry), (2, Symmetry::Neither));
    let c = DLABuilder::central_attractor(2);
    assert_eq!(c.algorithm, DLAAlgorithm::CentralAttractor);
    assert_eq!((c.brush_size, c.symmetry), (2, Symmetry::Neither));
    let d = DLABuilder::insectoid(2);
    assert_eq!(d.algorithm, DLAAlgorithm::CentralAttractor);
    assert_eq!((d.brush_size, d.symmetry), (2, Symmetry::Horizontal));
    assert_eq!(d.depth, 2);
}

#[test]
fn dla_seed_is_a_cross_in_the_middle() {
    let mut builder = DLABuilder::walk_inwards(1);
    builder.carve_seed();
    assert_eq!(builder.starting_position, Position { x: 40, y: 21 });
    assert_eq!(count(&builder.map, TileType::Floor), 5);
    for (x, y) in [(40, 21), (39, 21), (41, 21), (40, 20), (40, 22)] {
        assert_eq!(builder.map.tile(x, y), TileType::Floor);
    }
}

#[test]
fn dla_particles_follow_the_line_to_the_seed() {
    let mut builder = DLABuilder::central_attractor(1);
    builder.carve_seed();
    let path = vec![(12, 21), (13, 21), (39, 21), (40, 21), (41, 21)];
    assert_eq!(builder.draw_in(&path, 11, 21), (13, 21));
    assert_eq!(builder.draw_in(&path, 40, 21), (40, 21));
    assert_eq!(builder.draw_in(&Vec::new(), 11, 21), (11, 21));
    assert_eq!(builder.draw_in(&vec![(12, 21), (13, 21)], 11, 21), (12, 21));
    assert_eq!(builder.draw_in(&vec![(12, 21), (-1, 21), (14, 21)], 11, 21), (12, 21));
}

#[test]
fn dla_builds_grow_to_a_quarter_of_the_map() {
    for seed in 0..3u64 {
        for kind in 0..4 {
            let mut rng = RandomNumberGenerator::seeded(seed);
            let mut builder = match kind {
                0 => DLABuilder::walk_inwards(1),
                1 => DLABuilder::walk_outwards(1),
                2 => DLABuilder::central_attractor(1),
                _ => DLABuilder::insectoid(1),
            };
            assert_eq!(builder.build(&mut rng), Ok(()));
            let map = builder.get_map();
            let start = builder.get_starting_position();
            assert_eq!(start, Position { x: 40, y: 21 });
            check_pruned_level(&map, start);
            for x in 0..80 {
                assert_eq!(map.tile(x, 0), TileType::Wall);
                assert_eq!(map.tile(x, 42), TileType::Wall);
            }
            for y in 0..43 {
                assert_eq!(map.tile(0, y), TileType::Wall);
                assert_eq!(map.tile(79, y), TileType::Wall);
            }
            if kind == 3 {
                for y in 0..43 {
                    for x in 2..39 {
                        let here = map.tile(x, y) == TileType::Wall;
                        let there = map.tile(80 - x, y) == TileType::Wall;
                        if map.tile(x, y) != TileType::DownStairs
                            && map.tile(80 - x, y) != TileType::DownStairs
                        {
                            assert!(here == there || unreached_floor(&map, start, MAX_COST) == 0);
                        }
                    }
                }
            }
        }
    }
}

#[test]
fn distances_follow_the_three_metrics() {
    assert_eq!(distance2d(DistanceAlgorithm::Pythagoras, 1, 2, 4, 6), 25);
    assert_eq!(distance2d(DistanceAlgorithm::Manhattan, 1, 2, 4, 6), 7);
    assert_eq!(distance2d(DistanceAlgorithm::Chebyshev, 1, 2, 4, 6), 4);
    assert_eq!(distance2d(DistanceAlgorithm::Pythagoras, 4, 6, 1, 2), 25);
    assert_eq!(distance2d(DistanceAlgorithm::Manhattan, -3, 0, 3, 0), 6);
    assert_eq!(distance2d(DistanceAlgorithm::Chebyshev, 0, 0, 5, 2), 5);
    assert_eq!(distance2d(DistanceAlgorithm::Pythagoras, 7, 7, 7, 7), 0);
}

#[test]
fn nearest_seed_is_the_first_of_the_nearest() {
    let seeds = vec![(10, 10), (20, 10), (10, 20), (14, 14)];
    assert_eq!(nearest_seed(&seeds, DistanceAlgorithm::Pythagoras, 11, 11), 0);
    assert_eq!(nearest_seed(&seeds, DistanceAlgorithm::Pythagoras, 13, 13), 3);
    assert_eq!(nearest_seed(&seeds, DistanceAlgorithm::Pythagoras, 15, 10), 3);
    assert_eq!(nearest_seed(&vec![(20, 10), (10, 10)], DistanceAlgorithm::Pythagoras, 15, 10), 0);
    assert_eq!(nearest_seed(&vec![(10, 10), (20, 10)], DistanceAlgorithm::Pythagoras, 16, 10), 1);
    assert_eq!(nearest_seed(&seeds, DistanceAlgorithm::Pythagoras, 12, 12), 0);
    assert_eq!(nearest_seed(&seeds, DistanceAlgorithm::Manhattan, 19, 12), 1);
    assert_eq!(nearest_seed(&seeds, DistanceAlgorithm::Chebyshev, 16, 12), 3);
    assert_eq!(nearest_seed(&seeds, DistanceAlgorithm::Manhattan, 17, 13), 3);
    assert!(holds_seed(&seeds, 20, 10));
    assert!(!holds_seed(&seeds, 10, 21));
}

#[test]
fn voronoi_carves_where_few_neighbours_are_kin() {
    let mut builder = VoronoiBuilder::pythagoras(1);
    let mut member = vec![0usize; 3440];
    let at = |x: usize, y: usize| y * 80 + x;
    member[at(10, 10)] = 1;
    member[at(20, 10)] = 2;
    member[at(21, 10)] = 2;
    member[at(30, 10)] = 3;
    member[at(31, 10)] = 3;
    member[at(30, 11)] = 3;
    member[at(0, 5)] = 4;
    builder.carve(&member);
    let mut floor = Vec::new();
    for y in 0..43 {
        for x in 0..80 {
            if builder.map.tile(x, y) == TileType::Floor {
                floor.push((x, y));
            }
        }
    }
    assert_eq!(floor, vec![(10, 10), (20, 10), (21, 10), (31, 10), (30, 11)]);
}

#[test]
fn voronoi_membership_gives_each_cell_its_nearest_seed() {
    let builder = VoronoiBuilder::manhattan(1);
    let seeds = vec![(10, 10), (70, 30)];
    let member = builder.membership(&seeds);
    assert_eq!(member.len(), 3440);
    assert_eq!(member[0], 0);
    assert_eq!(member[3439], 1);
    assert_eq!(member[10 * 80 + 10], 0);
    assert_eq!(member[20 * 80 + 39], 0);
    assert_eq!(member[20 * 80 + 40], 0);
    assert_eq!(member[20 * 80 + 41], 1);
}

#[test]
fn voronoi_scatters_distinct_seeds() {
    let builder = VoronoiBuilder::chebyshev(1);
    assert_eq!(builder.n_seeds, 64);
    assert_eq!(builder.distance_algorithm, DistanceAlgorithm::Chebyshev);
    let mut rng = RandomNumberGenerator::seeded(8);
    let seeds = builder.scatter(&mut rng).unwrap();
    assert_eq!(seeds.len(), 64);
    for i in 0..64 {
        assert!(seeds[i].0 >= 1 && seeds[i].0 <= 79);
        assert!(seeds[i].1 >= 1 && seeds[i].1 <= 85);
        for j in 0..i {
            assert_ne!(seeds[i], seeds[j]);
        }
    }
}

#[test]
fn voronoi_builds_end_in_a_level_or_an_error() {
    for seed in 0..10u64 {
        for kind in 0..3 {
            let mut rng = RandomNumberGenerator::seeded(seed);
            let mut builder = match kind {
                0 => VoronoiBuilder::pythagoras(1),
                1 => VoronoiBuilder::manhattan(1),
                _ => VoronoiBuilder::chebyshev(1),
            };
            let r = builder.build(&mut rng);
            assert_eq!(builder.get_starting_position(), Position { x: 40, y: 21 });
            match r {
                Ok(()) => check_pruned_level(&builder.get_map(), builder.get_starting_position()),
                Err(e) => assert!(e == BuildError::NoStart || e == BuildError::NoExit),
            }
        }
    }
}

#[test]
fn derived_levels_are_put_together_from_chunks() {
    let mut built = 0;
    for seed in 0..12u64 {
        let mut rng = RandomNumberGenerator::seeded(seed);
        let source = pick_builder(1, (seed % 4) as i32);
        let mut builder = WaveformCollapseBuilder::derived_map(1, source);
        match builder.build(&mut rng) {
            Ok(()) => {
                built += 1;
                check_pruned_level(&builder.get_map(), builder.get_starting_position());
                assert_eq!(builder.get_starting_position().y, 21);
            }
            Err(_) => {}
        }
    }
    assert!(built >= 1);
}

#[test]
fn pick_builder_maps_numbers_to_strategies() {
    for choice in -2..17 {
        let builder = pick_builder(3, choice);
        let expected = match choice {
            1 => 1,
            2 => 2,
            3 => 3,
            4..=6 => 4,
            7 => 5,
            8..=11 => 6,
            12..=14 => 7,
            _ => 0,
        };
        let got = match &builder {
            MapBuilder::SimpleMap(_) => 0,
            MapBuilder::BspInterior(_) => 1,
            MapBuilder::CellularAutomata(_) => 2,
            MapBuilder::BspDungeon(_) => 3,
            MapBuilder::DrunkardWalk(_) => 4,
            MapBuilder::Maze(_) => 5,
            MapBuilder::Dla(_) => 6,
            MapBuilder::Voronoi(_) => 7,
            MapBuilder::WaveformCollapse(_) => 8,
        };
        assert_eq!(got, expected);
        assert_eq!(builder.get_map().depth, 3);
        assert_eq!(builder.get_starting_position(), Position { x: 0, y: 0 });
    }
    if let MapBuilder::DrunkardWalk(b) = pick_builder(1, 5) {
        assert_eq!(b.settings.spawn_mode, DrunkSpawnMode::Random);
    } else {
        panic!("not a drunkard's walk");
    }
    if let MapBuilder::Dla(b) = pick_builder(1, 11) {
        assert_eq!(b.symmetry, Symmetry::Horizontal);
    } else {
        panic!("not an aggregation");
    }
    if let MapBuilder::Voronoi(b) = pick_builder(1, 13) {
        assert_eq!(b.distance_algorithm, DistanceAlgorithm::Manhattan);
    } else {
        panic!("not a Voronoi level");
    }
}

#[test]
fn random_builders_build_levels() {
    let mut built = 0;
    let mut derived = 0;
    for seed in 0..30u64 {
        let mut rng = RandomNumberGenerator::seeded(seed);
        let mut builder = random_builder(1, &mut rng);
        if let MapBuilder::WaveformCollapse(_) = &builder {
            derived += 1;
        }
        if builder.build(&mut rng).is_ok() {
            built += 1;
            let map = builder.get_map();
            let start = builder.get_starting_position();
            check_level(&map, start);
            let at = map.tile(start.x, start.y);
            assert!(at == TileType::Floor || at == TileType::DownStairs);
        }
    }
    assert!(built >= 10);
    assert!(derived >= 1);
    assert!(derived < 30);
}

#[test]
fn layers_turn_spaces_and_hashes_into_tiles() {
    let mut glyphs = vec![0u32; 12];
    glyphs[0] = 32;
    glyphs[1] = 35;
    glyphs[3 + 2] = 32;
    glyphs[9 + 1] = 35;
    let layer = RexLayer { width: 4, height: 3, glyphs };
    assert_eq!(layer.get(0, 0), Some(32));
    assert_eq!(layer.get(0, 1), Some(35));
    assert_eq!(layer.get(1, 2), Some(32));
    assert_eq!(layer.get(3, 1), Some(35));
    assert_eq!(layer.get(4, 0), None);
    assert_eq!(layer.get(0, 3), None);
    let mut over = vec![0u32; 12];
    over[0] = 35;
    over[2] = 32;
    let map = load_layers(7, &vec![layer, RexLayer { width: 4, height: 3, glyphs: over }]);
    assert_eq!(map.depth, 7);
    assert_eq!(map.width, 80);
    assert_eq!(map.tile(0, 0), TileType::Wall);
    assert_eq!(map.tile(0, 1), TileType::Wall);
    assert_eq!(map.tile(0, 2), TileType::Floor);
    assert_eq!(map.tile(1, 2), TileType::Floor);
    assert_eq!(map.tile(3, 1), TileType::Wall);
    assert_eq!(map.tile(1, 0), TileType::Void);
    assert_eq!(count(&map, TileType::Void), 3440 - 5);
    let short = RexLayer { width: 2, height: 2, glyphs: vec![32, 32, 32] };
    assert_eq!(short.get(1, 0), Some(32));
    assert_eq!(short.get(1, 1), None);
}

#[test]
fn rex_images_are_read_cell_by_cell() {
    let mut xp = rltk::XpFile::new(3, 2);
    for x in 0..3 {
        for y in 0..2 {
            xp.layers[0].get_mut(x, y).unwrap().ch = 32;
        }
    }
    xp.layers[0].get_mut(0, 0).unwrap().ch = 35;
    xp.layers[0].get_mut(2, 1).unwrap().ch = 35;
    xp.layers[0].get_mut(1, 1).unwrap().ch = 64;
    let map = load_rex_map(2, &xp);
    assert_eq!(map.depth, 2);
    assert_eq!(map.tile(0, 0), TileType::Wall);
    assert_eq!(map.tile(2, 1), TileType::Wall);
    assert_eq!(map.tile(1, 1), TileType::Void);
    assert_eq!(map.tile(1, 0), TileType::Floor);
    assert_eq!(map.tile(0, 1), TileType::Floor);
    assert_eq!(map.tile(2, 0), TileType::Floor);
    assert_eq!(count(&map, TileType::Floor), 3);
    assert_eq!(count(&map, TileType::Wall), 2);
}

#[test]
fn prefab_builder_draws_the_template() {
    let mut glyphs = vec![35u32; 80 * 43];
    for x in 30..38 {
        glyphs[x * 43 + 21] = 32;
    }
    glyphs[5 * 43 + 5] = 32 + 256;
    let layers = vec![RexLayer { width: 80, height: 43, glyphs }];
    let mut builder = PrefabBuilder::new(1);
    assert!(builder.knows_template(&layers));
    assert_eq!(builder.build(&layers), Ok(()));
    assert_eq!(builder.get_starting_position(), Position { x: 37, y: 21 });
    let map = builder.get_map();
    assert_eq!(count(&map, TileType::Floor), 9);
    assert_eq!(map.tile(5, 5), TileType::Floor);
    assert_eq!(count(&map, TileType::Wall), 3440 - 9);
    let mut solid = PrefabBuilder::new(1);
    let rock = vec![RexLayer { width: 80, height: 43, glyphs: vec![35u32; 80 * 43] }];
    assert_eq!(solid.build(&rock), Err(BuildError::NoStart));
    let odd = vec![RexLayer { width: 2, height: 1, glyphs: vec![32, 64] }];
    assert!(!PrefabBuilder::new(1).knows_template(&odd));
    let off_map = vec![RexLayer { width: 81, height: 1, glyphs: {
        let mut g = vec![32u32; 81];
        g[80] = 64;
        g
    } }];
    assert!(PrefabBuilder::new(1).knows_template(&off_map));
}

#[test]
fn is_joined_tells_joined_maps_from_split_ones() {
    assert_eq!(NO_CAP, u32::MAX - 1414214);
    let mut map = TileMap::new(8, 5, 1, Some(TileType::Wall));
    for x in 1..4 {
        map.set_tile(x, 2, TileType::Floor);
    }
    map.set_tile(4, 3, TileType::DownStairs);
    assert!(is_joined(&map, map.xy_idx(1, 2)));
    assert!(is_joined(&map, map.xy_idx(4, 3)));
    map.set_tile(6, 1, TileType::Floor);
    assert!(!is_joined(&map, map.xy_idx(1, 2)));
    map.set_tile(5, 2, TileType::Placeholder);
    assert!(is_joined(&map, map.xy_idx(1, 2)));
    map.set_tile(0, 0, TileType::Floor);
    assert!(!is_joined(&map, map.xy_idx(1, 2)));
    let blocked_flags = map.blocked.clone();
    let _ = is_joined(&map, map.xy_idx(1, 2));
    assert_eq!(map.blocked, blocked_flags);
}

#[test]
fn digging_out_reaches_the_share_before_pruning() {
    for (percent, wanted) in [(50u32, 1720usize), (40, 1376), (1, 34), (0, 0)] {
        let mut rng = RandomNumberGenerator::seeded(17);
        let mut builder = DrunkardWalkBuilder::new(
            1,
            DrunkardSettings { spawn_mode: DrunkSpawnMode::Random, lifetime: 50, floor_percent: percent },
        );
        assert_eq!(builder.dig_out(&mut rng), Ok(()));
        assert!(count(&builder.map, TileType::Floor) >= wanted);
        assert!(count(&builder.map, TileType::Floor) >= 1);
        assert_eq!(count(&builder.map, TileType::Floor) + count(&builder.map, TileType::Wall), 3440);
        assert_eq!(builder.map.tile(40, 21), TileType::Floor);
        assert_eq!(builder.starting_position, Position { x: 40, y: 21 });
    }
}

#[test]
fn growing_reaches_a_quarter_before_pruning() {
    for kind in 0..4 {
        let mut rng = RandomNumberGenerator::seeded(23);
        let mut builder = match kind {
            0 => DLABuilder::walk_inwards(1),
            1 => DLABuilder::walk_outwards(1),
            2 => DLABuilder::central_attractor(1),
            _ => DLABuilder::insectoid(1),
        };
        assert_eq!(builder.grow(&mut rng), Ok(()));
        assert!(count(&builder.map, TileType::Floor) >= 860);
        assert_eq!(count(&builder.map, TileType::Floor) + count(&builder.map, TileType::Wall), 3440);
    }
}

#[test]
fn assemble_wraps_on_a_one() {
    for choice in 0..15 {
        for wrap in 1..=3 {
            let builder = assemble(2, choice, wrap);
            match builder {
                MapBuilder::WaveformCollapse(b) => {
                    assert_eq!(wrap, 1);
                    assert_eq!(b.depth, 2);
                    let inner = b.derive_from.unwrap();
                    let same = match (pick_builder(2, choice), *inner) {
                        (MapBuilder::SimpleMap(_), MapBuilder::SimpleMap(_)) => true,
                        (MapBuilder::BspInterior(_), MapBuilder::BspInterior(_)) => true,
                        (MapBuilder::CellularAutomata(_), MapBuilder::CellularAutomata(_)) => true,
                        (MapBuilder::BspDungeon(_), MapBuilder::BspDungeon(_)) => true,
                        (MapBuilder::DrunkardWalk(_), MapBuilder::DrunkardWalk(_)) => true,
                        (MapBuilder::Maze(_), MapBuilder::Maze(_)) => true,
                        (MapBuilder::Dla(_), MapBuilder::Dla(_)) => true,
                        (MapBuilder::Voronoi(_), MapBuilder::Voronoi(_)) => true,
                        _ => false,
                    };
                    assert!(same);
                }
                _ => assert_ne!(wrap, 1),
            }
        }
    }
}

#[test]
fn generate_hands_over_joined_levels() {
    let mut rng = RandomNumberGenerator::seeded(77);
    assert!(generate(1, &mut rng, 0).is_none());
    for depth in 1..6 {
        let builder = generate(depth, &mut rng, 500).unwrap();
        let map = builder.get_map();
        let start = builder.get_starting_position();
        check_level(&map, start);
        assert_eq!(map.depth, depth);
        assert!(is_joined(&map, map.xy_idx(start.x, start.y)));
        assert_eq!(unreached_floor(&map, start, NO_CAP), 0);
    }
}

#[test]
fn seed_tiles_are_floor_above_fifty_five() {
    assert_eq!(seed_tile(1), TileType::Wall);
    assert_eq!(seed_tile(55), TileType::Wall);
    assert_eq!(seed_tile(56), TileType::Floor);
    assert_eq!(seed_tile(100), TileType::Floor);
}

#[test]
fn random_fill_is_about_half_floor() {
    let mut rng = RandomNumberGenerator::seeded(5);
    let mut builder = CellularAutomataBuilder::new(1);
    builder.randomize(&mut rng);
    let floor = count(&builder.map, TileType::Floor);
    assert!(floor > 1100 && floor < 1800);
    assert_eq!(floor + count(&builder.map, TileType::Wall), 3440);
    for x in 0..80 {
        assert_eq!(builder.map.tile(x, 0), TileType::Wall);
        assert_eq!(builder.map.tile(x, 42), TileType::Wall);
    }
    for y in 0..43 {
        assert_eq!(builder.map.tile(0, y), TileType::Wall);
        assert_eq!(builder.map.tile(79, y), TileType::Wall);
    }
}

#[test]
fn rolls_vary_within_their_range() {
    let builder = BspDungeonBuilder::new(1);
    let mut rng = RandomNumberGenerator::seeded(31);
    let mut corners = std::collections::HashSet::new();
    let mut widths = std::collections::HashSet::new();
    for _ in 0..300 {
        let room = builder.get_random_sub_rect(Rect::new(10, 20, 30, 30), &mut rng);
        assert!(room.x1 >= 10 && room.x1 <= 15);
        assert!(room.y1 >= 20 && room.y1 <= 25);
        corners.insert(room.x1);
        widths.insert(room.x2 - room.x1);
    }
    assert_eq!(corners.len(), 6);
    assert_eq!(widths.len(), 7);
    assert!(widths.iter().all(|w| *w >= 4 && *w <= 10));
}

#[test]
fn room_sizes_vary_from_six_to_nine() {
    let mut sizes = std::collections::HashSet::new();
    for seed in 0..10u64 {
        let mut rng = RandomNumberGenerator::seeded(seed);
        let mut builder = SimpleMapBuilder::new(1);
        assert_eq!(builder.build(&mut rng), Ok(()));
        for room in builder.rooms.iter() {
            sizes.insert(room.x2 - room.x1);
            sizes.insert(room.y2 - room.y1);
        }
    }
    let mut seen: Vec<i32> = sizes.into_iter().collect();
    seen.sort();
    assert_eq!(seen, vec![6, 7, 8, 9]);
}

#[test]
fn attracted_particles_stick_to_the_cave() {
    for seed in 0..5u64 {
        let mut rng = RandomNumberGenerator::seeded(seed);
        let mut builder = DLABuilder::central_attractor(1);
        assert_eq!(builder.grow(&mut rng), Ok(()));
        assert!(is_joined(&builder.map, builder.map.xy_idx(40, 21)));
    }
}

#[test]
fn sub_rect_follows_its_rolls() {
    let from = Rect::new(10, 20, 30, 30);
    assert_eq!(sub_rect(from, 1, 1, 1, 1), Rect { x1: 10, x2: 14, y1: 20, y2: 24 });
    assert_eq!(sub_rect(from, 4, 5, 6, 2), Rect { x1: 15, x2: 19, y1: 21, y2: 26 });
    assert_eq!(sub_rect(from, 10, 9, 3, 6), Rect { x1: 12, x2: 22, y1: 25, y2: 34 });
}

#[test]
fn halves_leave_a_wall_between_them() {
    let whole = Rect::new(1, 1, 78, 41);
    assert_eq!(
        halves(whole, 1),
        (Rect { x1: 1, x2: 39, y1: 1, y2: 42 }, Rect { x1: 40, x2: 79, y1: 1, y2: 42 })
    );
    assert_eq!(halves(whole, 2), halves(whole, 1));
    assert_eq!(
        halves(whole, 3),
        (Rect { x1: 1, x2: 79, y1: 1, y2: 20 }, Rect { x1: 1, x2: 79, y1: 21, y2: 41 })
    );
    assert_eq!(halves(whole, 4), halves(whole, 3));
    assert_eq!(
        halves(Rect::new(5, 5, 9, 8), 1),
        (Rect { x1: 5, x2: 8, y1: 5, y2: 13 }, Rect { x1: 9, x2: 13, y1: 5, y2: 13 })
    );
}

#[test]
fn attracted_particles_rest_before_the_floor() {
    let mut builder = DLABuilder::central_attractor(1);
    builder.carve_seed();
    assert_eq!(builder.attract(30, 21), (38, 21));
    assert_eq!(builder.attract(40, 10), (40, 19));
    assert_eq!(builder.attract(40, 21), (40, 21));
    assert_eq!(builder.attract(39, 21), (39, 21));
    let rest = builder.attract(20, 5);
    assert_eq!(builder.map.tile(rest.0, rest.1), TileType::Wall);
    assert!((rest.0 - 40).abs() <= 2 && (rest.1 - 21).abs() <= 2);
}

#[test]
fn a_dungeon_without_rooms_is_an_error() {
    let mut builder = BspDungeonBuilder::new(1);
    assert_eq!(builder.place_ends(), Err(BuildError::NoRooms));
    assert_eq!(count(&builder.map, TileType::Void), 3440);
}

#[test]
fn a_dungeon_with_a_room_cut_off_is_an_error() {
    let mut builder = BspDungeonBuilder::new(1);
    let first = Rect::new(5, 5, 6, 6);
    let second = Rect::new(30, 20, 8, 5);
    apply_room_to_map(&mut builder.map, &first);
    apply_room_to_map(&mut builder.map, &second);
    builder.rooms.push(first);
    builder.rooms.push(second);
    let mut joined = BspDungeonBuilder::new(1);
    joined.map = builder.map.duplicate();
    joined.rooms = builder.rooms.clone();
    assert_eq!(builder.place_ends(), Err(BuildError::NoExit));
    assert_eq!(builder.map.tile(34, 22), TileType::Floor);
    assert_eq!(count(&builder.map, TileType::DownStairs), 0);
    assert_eq!(builder.starting_position, Position { x: 8, y: 8 });
    draw_corridor(&mut joined.map, 8, 8, 34, 22);
    assert_eq!(joined.place_ends(), Ok(()));
    assert_eq!(joined.map.tile(34, 22), TileType::DownStairs);
    assert_eq!(joined.starting_position, Position { x: 8, y: 8 });
    let mut single = BspDungeonBuilder::new(1);
    apply_room_to_map(&mut single.map, &first);
    single.rooms.push(first);
    assert_eq!(single.place_ends(), Err(BuildError::NoExit));
    assert_eq!(single.map.tile(8, 8), TileType::Floor);
    assert_eq!(single.starting_position, Position { x: 8, y: 8 });
}

#[test]
fn a_table_that_always_contradicts_is_unsolvable() {
    let mut table = patterns_to_constraints(vec![vec![TileType::Floor; 64]], 8);
    for side in 0..4 {
        table[0].compatible_with[side].clear();
    }
    let mut rng = RandomNumberGenerator::seeded(2);
    let mut builder = WaveformCollapseBuilder::new(1, None);
    assert_eq!(builder.compose(&table, &mut rng), Err(BuildError::Unsolvable));
    let open = patterns_to_constraints(vec![vec![TileType::Floor; 64]], 8);
    let mut fine = WaveformCollapseBuilder::new(1, None);
    assert_eq!(fine.compose(&open, &mut rng), Ok(()));
    assert_eq!(fine.starting_position, Position { x: 40, y: 21 });
    assert_eq!(count(&fine.map, TileType::DownStairs), 1);
    assert_eq!(count(&fine.map, TileType::Wall), 3 * 80);
    assert_eq!(count(&fine.map, TileType::Floor), 40 * 80 - 1);
    let solid = patterns_to_constraints(vec![vec![TileType::Wall; 64]], 8);
    let mut rock = WaveformCollapseBuilder::new(1, None);
    assert_eq!(rock.compose(&solid, &mut rng), Err(BuildError::NoStart));
}

#[test]
fn random_fill_overwrites_what_was_there() {
    let mut rng = RandomNumberGenerator::seeded(9);
    let mut builder = CellularAutomataBuilder::new(1);
    for tile in builder.map.tiles.iter_mut() {
        *tile = TileType::Void;
    }
    builder.map.set_tile(0, 7, TileType::DownStairs);
    builder.map.set_tile(40, 21, TileType::DownStairs);
    builder.randomize(&mut rng);
    for y in 0..43 {
        for x in 0..80 {
            let tile = builder.map.tile(x, y);
            if x == 0 && y == 7 {
                assert_eq!(tile, TileType::DownStairs);
            } else if x == 0 || x == 79 || y == 0 || y == 42 {
                assert_eq!(tile, TileType::Void);
            } else {
                assert!(tile == TileType::Floor || tile == TileType::Wall);
            }
        }
    }
    assert_eq!(count(&builder.map, TileType::Floor) + count(&builder.map, TileType::Wall), 78 * 41);
}

#[test]
fn placed_rooms_account_for_the_rectangles() {
    for seed in 0..6u64 {
        let mut rng = RandomNumberGenerator::seeded(seed);
        let mut builder = BspDungeonBuilder::new(1);
        builder.place_rooms(&mut rng);
        let rooms = builder.rooms.clone();
        let rects = builder.rects.clone();
        assert!(rooms.len() >= 1);
        assert_eq!(rects.len(), 5 + 4 * rooms.len());
        assert_eq!(rects[0], Rect { x1: 2, x2: 77, y1: 2, y2: 40 });
        assert_eq!(rects[1], Rect { x1: 2, x2: 39, y1: 2, y2: 21 });
        assert_eq!(rects[2], Rect { x1: 2, x2: 39, y1: 21, y2: 40 });
        assert_eq!(rects[3], Rect { x1: 39, x2: 76, y1: 2, y2: 21 });
        assert_eq!(rects[4], Rect { x1: 39, x2: 76, y1: 21, y2: 40 });
        let mut redrawn = BspDungeonBuilder::new(1);
        for (k, room) in rooms.iter().enumerate() {
            let r = k + 1;
            let from = (0..1 + 4 * r).find(|j| {
                let rect = rects[*j];
                let mut quartered = BspDungeonBuilder::new(1);
                quartered.add_subrects(rect);
                quartered.rects[..] == rects[1 + 4 * r..5 + 4 * r]
                    && rect.x1 <= room.x1
                    && room.x1 <= rect.x1 + 5
                    && rect.y1 <= room.y1
                    && room.y1 <= rect.y1 + 5
            });
            assert!(from.is_some());
            assert!(room.x1 + 4 <= room.x2 && room.x2 <= room.x1 + 10);
            assert!(room.y1 + 4 <= room.y2 && room.y2 <= room.y1 + 10);
            assert!(redrawn.is_possible(*room));
            apply_room_to_map(&mut redrawn.map, room);
        }
        assert_eq!(redrawn.map.tiles, builder.map.tiles);
    }
}

#[test]
fn a_walking_particle_sticks_beside_the_floor() {
    for seed in 0..8u64 {
        let mut rng = RandomNumberGenerator::seeded(seed);
        let mut inwards = DLABuilder::walk_inwards(1);
        inwards.carve_seed();
        for _ in 0..40 {
            let before = inwards.map.duplicate();
            assert_eq!(inwards.release_particle(&mut rng), Ok(()));
            let fresh: Vec<usize> =
                (0..3440).filter(|i| before.tiles[*i] != inwards.map.tiles[*i]).collect();
            assert!(fresh.len() <= 1);
            for i in fresh {
                assert_eq!(before.tiles[i], TileType::Wall);
                assert_eq!(inwards.map.tiles[i], TileType::Floor);
                let (x, y) = ((i % 80) as i32, (i / 80) as i32);
                assert!(2 <= x && x <= 78 && 2 <= y && y <= 41);
                assert!(
                    before.tile(x - 1, y) == TileType::Floor
                        || before.tile(x + 1, y) == TileType::Floor
                        || before.tile(x, y - 1) == TileType::Floor
                        || before.tile(x, y + 1) == TileType::Floor
                );
            }
        }
        let mut outwards = DLABuilder::walk_outwards(1);
        outwards.carve_seed();
        for _ in 0..40 {
            let before = outwards.map.duplicate();
            assert_eq!(outwards.release_particle(&mut rng), Ok(()));
            let fresh: Vec<usize> =
                (0..3440).filter(|i| before.tiles[*i] != outwards.map.tiles[*i]).collect();
            assert!(1 <= fresh.len() && fresh.len() <= 4);
            let right = fresh.iter().map(|i| (*i % 80) as i32).max().unwrap();
            let low = fresh.iter().map(|i| (*i / 80) as i32).max().unwrap();
            assert_eq!(before.tile(right, low), TileType::Wall);
            for i in fresh {
                assert_eq!(outwards.map.tiles[i], TileType::Floor);
                let (x, y) = ((i % 80) as i32, (i / 80) as i32);
                assert!(right - 1 <= x && low - 1 <= y);
            }
        }
    }
}

#[test]
fn an_attracted_particle_paints_where_it_rests() {
    let mut rng = RandomNumberGenerator::seeded(3);
    let mut builder = DLABuilder::central_attractor(1);
    builder.carve_seed();
    for _ in 0..60 {
        let before = builder.map.duplicate();
        assert_eq!(builder.release_particle(&mut rng), Ok(()));
        let fresh: Vec<usize> = (0..3440).filter(|i| before.tiles[*i] != builder.map.tiles[*i]).collect();
        assert!(fresh.len() <= 4);
        for i in fresh {
            assert_eq!(before.tiles[i], TileType::Wall);
            assert_eq!(builder.map.tiles[i], TileType::Floor);
        }
        assert!(is_joined(&builder.map, builder.map.xy_idx(40, 21)));
    }
}

#[test]
fn a_solver_run_covers_the_slots_and_nothing_else() {
    let mut rng = RandomNumberGenerator::seeded(4);
    let open = patterns_to_constraints(vec![vec![TileType::Floor; 64]], 8);
    let mut fine = WaveformCollapseBuilder::new(1, None);
    assert!(fine.solve(&open, &mut rng));
    for y in 0..43 {
        for x in 0..80 {
            let expected = if y < 40 { TileType::Floor } else { TileType::Wall };
            assert_eq!(fine.map.tile(x, y), expected);
        }
    }
    let mut shut = patterns_to_constraints(vec![vec![TileType::Floor; 64]], 8);
    for side in 0..4 {
        shut[0].compatible_with[side].clear();
    }
    let mut stuck = WaveformCollapseBuilder::new(1, None);
    assert!(!stuck.solve(&shut, &mut rng));
    let floor = count(&stuck.map, TileType::Floor);
    assert!(floor >= 64 && floor < 50 * 64 && floor % 64 == 0);
    for sy in 0..5 {
        for sx in 0..10 {
            let first = stuck.map.tile(sx * 8, sy * 8);
            for cy in 0..8 {
                for cx in 0..8 {
                    assert_eq!(stuck.map.tile(sx * 8 + cx, sy * 8 + cy), first);
                }
            }
        }
    }
    for y in 40..43 {
        for x in 0..80 {
            assert_eq!(stuck.map.tile(x, y), TileType::Wall);
        }
    }
}

#[test]
fn a_derived_build_leaves_its_source_built() {
    for seed in 0..6u64 {
        let mut rng = RandomNumberGenerator::seeded(seed);
        let source = pick_builder(2, (seed % 2) as i32);
        let mut builder = WaveformCollapseBuilder::derived_map(2, source);
        let r = builder.build(&mut rng);
        assert!(
            r == Ok(())
                || r == Err(BuildError::Unsolvable)
                || r == Err(BuildError::NoStart)
                || r == Err(BuildError::NoExit)
        );
        let inner = builder.derive_from.as_ref().unwrap();
        let level = inner.get_map();
        let start = inner.get_starting_position();
        check_level(&level, start);
        assert!(is_joined(&level, level.xy_idx(start.x, start.y)));
        assert_eq!(builder.map.depth, 2);
        for x in 0..80 {
            for y in 40..43 {
                assert_eq!(builder.map.tile(x, y), TileType::Wall);
            }
        }
    }
}

#[test]
fn a_particle_with_nowhere_to_wander_rests_at_once() {
    let mut rng = RandomNumberGenerator::seeded(1);
    let mut builder = DLABuilder::walk_outwards(1);
    builder.starting_position = Position { x: 40, y: 21 };
    assert_eq!(builder.release_particle(&mut rng), Ok(()));
    assert_eq!(count(&builder.map, TileType::Floor), 4);
    for (x, y) in [(39, 20), (40, 20), (39, 21), (40, 21)] {
        assert_eq!(builder.map.tile(x, y), TileType::Floor);
    }
    let mut open = DLABuilder::walk_inwards(1);
    open.starting_position = Position { x: 40, y: 21 };
    for y in 1..42 {
        for x in 1..79 {
            open.map.set_tile(x, y, TileType::Floor);
        }
    }
    let before = open.map.duplicate();
    assert_eq!(open.release_particle(&mut rng), Ok(()));
    assert_eq!(open.map.tiles, before.tiles);
}

#[test]
fn an_attempt_with_an_interior_or_a_maze_never_fails() {
    for seed in 0..10u64 {
        let mut rng = RandomNumberGenerator::seeded(seed);
        for choice in [1, 7] {
            for wrap in [2, 3] {
                let builder = attempt(3, choice, wrap, &mut rng).unwrap();
                match (&builder, choice) {
                    (MapBuilder::BspInterior(_), 1) => {}
                    (MapBuilder::Maze(_), 7) => {}
                    _ => panic!("another strategy than the rolls stand for"),
                }
                let map = builder.get_map();
                let start = builder.get_starting_position();
                check_level(&map, start);
                assert_eq!(map.tile(start.x, start.y), TileType::Floor);
                assert_eq!(map.depth, 3);
                assert!(is_joined(&map, map.xy_idx(start.x, start.y)));
            }
        }
        for choice in [0, -3, 15, 99] {
            match attempt(3, choice, 2, &mut rng) {
                Some(MapBuilder::SimpleMap(rooms)) => {
                    assert!(rooms.rooms.len() >= 2);
                    assert_eq!(rooms.map.tile(rooms.starting_position.x, rooms.starting_position.y), TileType::Floor);
                }
                Some(_) => panic!("another strategy than the rolls stand for"),
                None => {}
            }
        }
        match attempt(2, 7, 1, &mut rng) {
            Some(MapBuilder::WaveformCollapse(wrapped)) => {
                assert!(matches!(wrapped.derive_from.as_deref(), Some(MapBuilder::Maze(_))));
                assert_eq!(wrapped.map.depth, 2);
                check_pruned_level(&wrapped.get_map(), wrapped.get_starting_position());
            }
            Some(_) => panic!("a wrapped builder was asked for"),
            None => {}
        }
    }
}

#[test]
fn a_level_of_one_room_has_no_exit() {
    let mut builder = SimpleMapBuilder::new(1);
    let only = Rect::new(10, 10, 8, 6);
    apply_room_to_map(&mut builder.map, &only);
    builder.rooms.push(only);
    let before = builder.map.duplicate();
    assert_eq!(builder.place_ends(), Err(BuildError::NoExit));
    assert_eq!(builder.map.tiles, before.tiles);
    assert_eq!(builder.starting_position, Position { x: 14, y: 13 });
    let mut two = SimpleMapBuilder::new(1);
    let other = Rect::new(30, 10, 8, 6);
    apply_room_to_map(&mut two.map, &only);
    apply_room_to_map(&mut two.map, &other);
    draw_corridor(&mut two.map, 14, 13, 34, 13);
    two.rooms.push(only);
    two.rooms.push(other);
    assert_eq!(two.place_ends(), Ok(()));
    assert_eq!(two.map.tile(34, 13), TileType::DownStairs);
    assert_eq!(two.map.tile(14, 13), TileType::Floor);
    assert_eq!(two.starting_position, Position { x: 14, y: 13 });
}

#[test]
fn a_maze_is_a_tree_of_passages() {
    for seed in 0..5u64 {
        let mut rng = RandomNumberGenerator::seeded(seed);
        let mut map = TileMap::new(80, 43, 1, Some(TileType::Wall));
        let mut grid = Grid::new(38, 19);
        grid.generate_maze(&mut rng, &mut map);
        let mut down = 0;
        for (c, cell) in grid.cells.iter().enumerate() {
            assert!(cell.visited);
            let beyond = [
                if cell.row > 0 { Some(c - 38) } else { None },
                if cell.column < 37 { Some(c + 1) } else { None },
                if cell.row < 18 { Some(c + 38) } else { None },
                if cell.column > 0 { Some(c - 1) } else { None },
            ];
            for side in 0..4 {
                if !cell.walls[side] {
                    down += 1;
                    let other = beyond[side].unwrap();
                    assert!(!grid.cells[other].walls[(side + 2) % 4]);
                }
            }
        }
        assert_eq!(down, 2 * (38 * 19 - 1));
        assert_eq!(count(&map, TileType::Floor), 2 * 38 * 19 - 1);
        let mut seen = vec![false; 38 * 19];
        let mut stack = vec![0usize];
        seen[0] = true;
        while let Some(c) = stack.pop() {
            let cell = grid.cells[c];
            let beyond = [c.wrapping_sub(38), c + 1, c + 38, c.wrapping_sub(1)];
            for side in 0..4 {
                if !cell.walls[side] && !seen[beyond[side]] {
                    seen[beyond[side]] = true;
                    stack.push(beyond[side]);
                }
            }
        }
        assert!(seen.iter().all(|s| *s));
        let mut reached = vec![false; 3440];
        let mut tiles = vec![map.xy_idx(2, 2)];
        reached[map.xy_idx(2, 2)] = true;
        let mut found = 1;
        while let Some(i) = tiles.pop() {
            for beside in [i - 1, i + 1, i - 80, i + 80] {
                if map.tiles[beside] == TileType::Floor && !reached[beside] {
                    reached[beside] = true;
                    found += 1;
                    tiles.push(beside);
                }
            }
        }
        assert_eq!(found, 2 * 38 * 19 - 1);
        for row in 0..19 {
            for column in 0..38 {
                assert_eq!(map.tile(2 * column + 2, 2 * row + 2), TileType::Floor);
            }
        }
    }
}

#[test]
fn maze_builds_always_succeed() {
    for seed in 0..8u64 {
        let mut rng = RandomNumberGenerator::seeded(seed);
        let mut builder = MazeBuilder::new(1);
        assert_eq!(builder.build(&mut rng), Ok(()));
        assert_eq!(builder.starting_position, Position { x: 2, y: 2 });
        assert_eq!(builder.map.tile(2, 2), TileType::Floor);
        assert!(builder.map.tile(3, 2) != TileType::Wall || builder.map.tile(2, 3) != TileType::Wall);
    }
}

#[test]
fn a_cave_starts_in_the_middle_row() {
    let mut built = 0;
    for seed in 0..10u64 {
        let mut rng = RandomNumberGenerator::seeded(seed);
        let mut builder = CellularAutomataBuilder::new(1);
        if builder.build(&mut rng) == Ok(()) {
            built += 1;
            let start = builder.starting_position;
            assert_eq!(start.y, 21);
            assert!(1 <= start.x && start.x <= 40);
            assert_eq!(builder.map.tile(start.x, start.y), TileType::Floor);
            for x in start.x + 1..=40 {
                assert!(builder.map.tile(x, 21) != TileType::Floor);
            }
        }
    }
    assert!(built >= 1);
}

#[test]
fn the_solver_fills_beside_what_is_filled() {
    let wall = vec![TileType::Wall];
    let floor = vec![TileType::Floor];
    let mut table = patterns_to_constraints(vec![wall, floor], 1);
    for p in 0..2 {
        for side in 0..4 {
            table[p].compatible_with[side] = vec![1];
        }
    }
    for seed in 0..20u64 {
        let mut rng = RandomNumberGenerator::seeded(seed);
        let mut map = TileMap::new(3, 1, 1, None);
        let mut solver = Solver::new(
            table.iter().map(|c| c.duplicate()).collect(),
            1,
            &map,
        );
        let mut calls = 0;
        while !solver.iteration(&mut map, &mut rng) {
            calls += 1;
        }
        assert_eq!(calls, 3);
        assert!(solver.possible);
        assert!(count(&map, TileType::Floor) >= 2);
    }
}

fn corridor_over(map: &TileMap, x1: i32, y1: i32, x2: i32, y2: i32) -> TileMap {
    let mut drawn = map.duplicate();
    draw_corridor(&mut drawn, x1, y1, x2, y2);
    drawn
}

#[test]
fn joining_a_dungeon_sorts_the_rooms_and_draws_corridors() {
    for seed in 0..6u64 {
        let mut rng = RandomNumberGenerator::seeded(seed);
        let mut builder = BspDungeonBuilder::new(1);
        builder.place_rooms(&mut rng);
        let placed = builder.rooms.clone();
        let before = builder.map.duplicate();
        builder.join_rooms(&mut rng);
        let mut sorted = placed.clone();
        sorted.sort_by_key(|room| (room.x1, room.y1, room.x2, room.y2));
        let mut now = builder.rooms.clone();
        now.sort_by_key(|room| (room.x1, room.y1, room.x2, room.y2));
        assert_eq!(sorted, now);
        for pair in builder.rooms.windows(2) {
            assert!(pair[0].x1 <= pair[1].x1);
        }
        assert!(placed.len() >= 2);
        assert!(builder.map.tiles != before.tiles);
        assert!(count(&builder.map, TileType::Floor) > count(&before, TileType::Floor));
        for i in 0..3440 {
            if before.tiles[i] == TileType::Floor {
                assert_eq!(builder.map.tiles[i], TileType::Floor);
            }
        }
        assert_eq!(count(&builder.map, TileType::DownStairs), 0);
    }
}

#[test]
fn corridors_are_drawn_one_after_the_other() {
    let mut builder = BspDungeonBuilder::new(1);
    let first = Rect::new(5, 5, 6, 6);
    let second = Rect::new(30, 20, 8, 5);
    apply_room_to_map(&mut builder.map, &first);
    apply_room_to_map(&mut builder.map, &second);
    builder.rooms.push(second);
    builder.rooms.push(first);
    let before = builder.map.duplicate();
    for seed in 0..10u64 {
        let mut rng = RandomNumberGenerator::seeded(seed);
        let mut joined = BspDungeonBuilder::new(1);
        joined.map = before.duplicate();
        joined.rooms = builder.rooms.clone();
        joined.join_rooms(&mut rng);
        assert_eq!(joined.rooms, vec![first, second]);
        let mut found = false;
        for x1 in 5..11 {
            for y1 in 5..11 {
                for x2 in 30..38 {
                    for y2 in 20..25 {
                        if corridor_over(&before, x1, y1, x2, y2).tiles == joined.map.tiles {
                            found = true;
                        }
                    }
                }
            }
        }
        assert!(found);
    }
}

#[test]
fn a_digger_digs_along_its_walk() {
    for seed in 0..10u64 {
        let mut rng = RandomNumberGenerator::seeded(seed);
        let mut builder = DrunkardWalkBuilder::new(
            1,
            DrunkardSettings { spawn_mode: DrunkSpawnMode::StartingPoint, lifetime: 40, floor_percent: 50 },
        );
        let before = builder.map.duplicate();
        builder.release_digger(&mut rng, 40, 21);
        let dug: Vec<usize> = (0..3440).filter(|i| builder.map.tiles[*i] != before.tiles[*i]).collect();
        assert!(dug.len() >= 2 && dug.len() <= 40);
        assert!(dug.contains(&before.xy_idx(40, 21)));
        let mut reached = vec![before.xy_idx(40, 21)];
        let mut k = 0;
        while k < reached.len() {
            let i = reached[k];
            for beside in [i - 1, i + 1, i - 80, i + 80] {
                if dug.contains(&beside) && !reached.contains(&beside) {
                    reached.push(beside);
                }
            }
            k += 1;
        }
        assert_eq!(reached.len(), dug.len());
        for i in dug {
            assert_eq!(builder.map.tiles[i], TileType::Floor);
            let (x, y) = ((i % 80) as i32, (i / 80) as i32);
            assert!(2 <= x && x <= 78 && 2 <= y && y <= 41);
        }
    }
    let mut rng = RandomNumberGenerator::seeded(1);
    let mut still = DrunkardWalkBuilder::new(
        1,
        DrunkardSettings { spawn_mode: DrunkSpawnMode::StartingPoint, lifetime: 1, floor_percent: 50 },
    );
    still.release_digger(&mut rng, 10, 10);
    assert_eq!(count(&still.map, TileType::Floor), 1);
    assert_eq!(still.map.tile(10, 10), TileType::Floor);
    let mut dead = DrunkardWalkBuilder::new(
        1,
        DrunkardSettings { spawn_mode: DrunkSpawnMode::StartingPoint, lifetime: 0, floor_percent: 50 },
    );
    dead.release_digger(&mut rng, 10, 10);
    assert_eq!(count(&dead.map, TileType::Floor), 0);
}

#[test]
fn a_share_of_nothing_needs_no_walker() {
    let mut rng = RandomNumberGenerator::seeded(1);
    let mut drunk = DrunkardWalkBuilder::new(
        1,
        DrunkardSettings { spawn_mode: DrunkSpawnMode::Random, lifetime: 100, floor_percent: 0 },
    );
    assert_eq!(drunk.build(&mut rng), Err(BuildError::NoExit));
    assert_eq!(count(&drunk.map, TileType::Floor), 1);
    assert_eq!(drunk.map.tile(40, 21), TileType::Floor);
    for algorithm in [DLAAlgorithm::WalkInwards, DLAAlgorithm::WalkOutwards, DLAAlgorithm::CentralAttractor] {
        let mut dla = DLABuilder::new("none".to_string(), 1, algorithm, 1, Symmetry::Neither);
        dla.floor_percent = 0;
        assert_eq!(dla.build(&mut rng), Ok(()));
        assert_eq!(count(&dla.map, TileType::Floor), 4);
        assert_eq!(count(&dla.map, TileType::DownStairs), 1);
        assert_eq!(dla.map.tile(40, 21), TileType::Floor);
    }
}

#[test]
fn the_interior_is_halved_down_to_the_smallest_rooms() {
    for seed in 0..8u64 {
        let mut rng = RandomNumberGenerator::seeded(seed);
        let mut builder = BspInteriorBuilder::new(1);
        assert_eq!(builder.build(&mut rng), Ok(()));
        let rooms = builder.rooms.clone();
        assert!(rooms.len() >= 2);
        for (j, a) in rooms.iter().enumerate() {
            assert!(1 <= a.x1 && a.x1 + 3 <= a.x2 && a.x2 <= 79);
            assert!(1 <= a.y1 && a.y1 + 3 <= a.y2 && a.y2 <= 42);
            assert!(a.x2 - a.x1 <= 39 || a.y2 - a.y1 <= 20);
            for b in rooms.iter().skip(j + 1) {
                assert!(a.x2 <= b.x1 || b.x2 <= a.x1 || a.y2 <= b.y1 || b.y2 <= a.y1);
            }
        }
        let whole = Rect::new(1, 1, 78, 41);
        let (left, right) = halves(whole, 1);
        let (top, bottom) = halves(whole, 3);
        let first = rooms[0];
        let last = rooms[rooms.len() - 1];
        let across = first.x2 <= left.x2 && last.x1 >= right.x1;
        let down = first.y2 <= top.y2 && last.y1 >= bottom.y1;
        assert!(across || down);
    }
}

#[test]
fn tunnels_join_the_middles_of_simple_rooms() {
    let mut builder = SimpleMapBuilder::new(1);
    let first = Rect::new(10, 10, 8, 6);
    let second = Rect::new(40, 25, 7, 7);
    apply_room_to_map(&mut builder.map, &first);
    apply_room_to_map(&mut builder.map, &second);
    builder.rooms.push(first);
    builder.rooms.push(second);
    let before = builder.map.duplicate();
    let mut row_first = before.duplicate();
    draw_corridor(&mut row_first, 14, 13, 43, 13);
    draw_corridor(&mut row_first, 43, 13, 43, 28);
    let mut column_first = before.duplicate();
    draw_corridor(&mut column_first, 14, 13, 14, 28);
    draw_corridor(&mut column_first, 14, 28, 43, 28);
    let mut seen = [false, false];
    for seed in 0..20u64 {
        let mut rng = RandomNumberGenerator::seeded(seed);
        let mut joined = SimpleMapBuilder::new(1);
        joined.map = before.duplicate();
        joined.rooms = builder.rooms.clone();
        joined.dig_tunnels(&mut rng);
        if joined.map.tiles == row_first.tiles {
            seen[0] = true;
        } else {
            assert_eq!(joined.map.tiles, column_first.tiles);
            seen[1] = true;
        }
    }
    assert!(seen[0] && seen[1]);
}

#[test]
fn a_wide_maze_of_one_row_is_carved_too() {
    let mut rng = RandomNumberGenerator::seeded(3);
    let mut map = TileMap::new(40002, 4, 1, Some(TileType::Wall));
    let mut grid = Grid::new(20000, 1);
    grid.generate_maze(&mut rng, &mut map);
    assert_eq!(count(&map, TileType::Floor), 2 * 20000 - 1);
    for x in 2..40001 {
        assert_eq!(map.tile(x, 2), TileType::Floor);
    }
    assert_eq!(map.tile(40001, 2), TileType::Wall);
    let mut far = Cell::new(i32::MAX, 7);
    let mut near = Cell::new(i32::MAX - 1, 7);
    far.remove_walls(&mut near);
    assert_eq!(far.walls, [false, true, true, true]);
    assert_eq!(near.walls, [true, true, false, true]);
}
