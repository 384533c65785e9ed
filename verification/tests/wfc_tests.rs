use dungeon_gen::map::{TileMap, TileType};
use dungeon_gen::map_builder::waveform_collapse::common::{tile_idx_in_chunk, MapChunk};
use dungeon_gen::map_builder::waveform_collapse::constraints::{
    build_patterns, patterns_to_constraints, render_pattern_to_map, row_any_open, rows_agree,
    rows_share_open, same_tiles,
};
use dungeon_gen::map_builder::waveform_collapse::solver::{list_holds, stamp_pattern, Solver};
use rltk::RandomNumberGenerator;

fn pattern_with_floor(at: &[usize]) -> Vec<TileType> {
    let mut p = vec![TileType::Wall; 64];
    for i in at {
        p[*i] = TileType::Floor;
    }
    p
}

fn sorted(mut patterns: Vec<Vec<TileType>>) -> Vec<Vec<TileType>> {
    patterns.sort_by_key(|p| p.iter().map(|t| if *t == TileType::Floor { '1' } else { '0' }).collect::<String>());
    patterns
}

#[test]
fn all_floor_source_gives_one_open_pattern() {
    let source = TileMap::new(8, 8, 1, Some(TileType::Floor));
    let patterns = build_patterns(&source, 8, false, false);
    assert_eq!(patterns.len(), 1);
    assert_eq!(patterns[0], vec![TileType::Floor; 64]);
    let constraints = patterns_to_constraints(patterns, 8);
    assert_eq!(constraints.len(), 1);
    assert!(constraints[0].has_exits);
    for side in 0..4 {
        assert_eq!(constraints[0].exits[side], vec![true; 8]);
        assert_eq!(constraints[0].compatible_with[side], vec![0usize]);
    }
    assert_eq!(constraints[0].pattern, vec![TileType::Floor; 64]);
}

#[test]
fn patterns_are_cut_chunk_by_chunk() {
    let mut source = TileMap::new(5, 4, 1, Some(TileType::Wall));
    source.set_tile(0, 0, TileType::Floor);
    source.set_tile(3, 1, TileType::Floor);
    source.set_tile(1, 3, TileType::DownStairs);
    source.set_tile(4, 0, TileType::Floor);
    let w = TileType::Wall;
    let f = TileType::Floor;
    let s = TileType::DownStairs;
    let patterns = build_patterns(&source, 2, false, false);
    assert_eq!(
        patterns,
        vec![vec![f, w, w, w], vec![w, w, w, f], vec![w, w, w, s], vec![w, w, w, w]]
    );
}

#[test]
fn flipping_adds_three_mirror_images() {
    let mut source = TileMap::new(2, 2, 1, Some(TileType::Wall));
    source.set_tile(0, 0, TileType::Floor);
    source.set_tile(1, 0, TileType::Void);
    let w = TileType::Wall;
    let f = TileType::Floor;
    let v = TileType::Void;
    let patterns = build_patterns(&source, 2, true, false);
    assert_eq!(
        patterns,
        vec![vec![f, v, w, w], vec![v, f, w, w], vec![w, w, f, v], vec![w, w, v, f]]
    );
}

#[test]
fn flipping_an_eight_by_eight_chunk() {
    let mut source = TileMap::new(8, 8, 1, Some(TileType::Wall));
    source.set_tile(1, 0, TileType::Floor);
    let patterns = build_patterns(&source, 8, true, true);
    assert_eq!(
        patterns,
        vec![
            pattern_with_floor(&[1]),
            pattern_with_floor(&[6]),
            pattern_with_floor(&[57]),
            pattern_with_floor(&[62])
        ]
    );
}

#[test]
fn dedupe_keeps_first_occurrences() {
    let mut source = TileMap::new(16, 8, 1, Some(TileType::Wall));
    for y in 0..8 {
        for x in 0..8 {
            source.set_tile(x, y, TileType::Floor);
        }
    }
    assert_eq!(build_patterns(&source, 8, false, false).len(), 2);
    assert_eq!(build_patterns(&source, 8, true, false).len(), 8);
    let unique = build_patterns(&source, 8, true, true);
    assert_eq!(unique, vec![vec![TileType::Floor; 64], vec![TileType::Wall; 64]]);
}

#[test]
fn dedupe_twice_gives_the_same_set() {
    let mut source = TileMap::new(24, 16, 1, Some(TileType::Wall));
    for y in 0..16 {
        for x in 0..24 {
            if (x * 7 + y * 3) % 5 == 0 || x / 8 == y / 8 {
                source.set_tile(x, y, TileType::Floor);
            }
        }
    }
    let first = build_patterns(&source, 8, true, true);
    let second = build_patterns(&source, 8, true, true);
    assert_eq!(sorted(first.clone()), sorted(second));
    for i in 0..first.len() {
        for j in 0..i {
            assert_ne!(first[i], first[j]);
        }
    }
    let raw = build_patterns(&source, 8, true, false);
    assert_eq!(raw.len(), 24);
    for p in raw.iter() {
        assert!(first.contains(p));
    }
    for p in first.iter() {
        assert!(raw.contains(p));
    }
}

#[test]
fn chunk_size_larger_than_the_map_gives_nothing() {
    let source = TileMap::new(5, 5, 1, Some(TileType::Floor));
    assert_eq!(build_patterns(&source, 8, true, true).len(), 0);
    assert_eq!(patterns_to_constraints(Vec::new(), 8).len(), 0);
}

#[test]
fn exits_are_the_floor_on_the_border() {
    let p = pattern_with_floor(&[2, 8, 23, 60, 27]);
    let constraints = patterns_to_constraints(vec![p.clone()], 8);
    let c = &constraints[0];
    assert_eq!(c.pattern, p);
    assert!(c.has_exits);
    assert_eq!(c.exits[0], vec![false, false, true, false, false, false, false, false]);
    assert_eq!(c.exits[1], vec![false, false, false, false, true, false, false, false]);
    assert_eq!(c.exits[2], vec![false, true, false, false, false, false, false, false]);
    assert_eq!(c.exits[3], vec![false, false, true, false, false, false, false, false]);
    let inner = patterns_to_constraints(vec![pattern_with_floor(&[27, 36])], 8);
    assert!(!inner[0].has_exits);
    for side in 0..4 {
        assert_eq!(inner[0].exits[side], vec![false; 8]);
    }
}

#[test]
fn neighbours_must_share_an_exit_or_have_none() {
    let a = pattern_with_floor(&[0]);
    let b = pattern_with_floor(&[63]);
    let constraints = patterns_to_constraints(vec![a, b], 8);
    assert_eq!(constraints[0].compatible_with[0], vec![0usize]);
    assert_eq!(constraints[0].compatible_with[1], vec![0usize, 1]);
    assert_eq!(constraints[0].compatible_with[2], vec![0usize]);
    assert_eq!(constraints[0].compatible_with[3], vec![0usize, 1]);
    assert_eq!(constraints[1].compatible_with[0], vec![0usize, 1]);
    assert_eq!(constraints[1].compatible_with[1], vec![1usize]);
    assert_eq!(constraints[1].compatible_with[2], vec![0usize, 1]);
    assert_eq!(constraints[1].compatible_with[3], vec![1usize]);
}

#[test]
fn solid_and_open_patterns_fit_everything() {
    let constraints =
        patterns_to_constraints(vec![vec![TileType::Wall; 64], vec![TileType::Floor; 64]], 8);
    assert!(!constraints[0].has_exits);
    assert!(constraints[1].has_exits);
    for c in constraints.iter() {
        for side in 0..4 {
            assert_eq!(c.compatible_with[side], vec![0usize, 1]);
        }
    }
}

#[test]
fn facing_rows_agree_when_they_share_an_exit() {
    let none = vec![false, false, false];
    let left = vec![true, false, false];
    let right = vec![false, false, true];
    let both = vec![true, false, true];
    assert!(!row_any_open(&none));
    assert!(row_any_open(&right));
    assert!(!row_any_open(&Vec::new()));
    assert!(rows_share_open(&left, &both));
    assert!(!rows_share_open(&left, &right));
    assert!(!rows_share_open(&none, &both));
    assert!(rows_agree(&none, &both));
    assert!(rows_agree(&left, &none));
    assert!(rows_agree(&none, &none));
    assert!(rows_agree(&left, &both));
    assert!(rows_agree(&both, &right));
    assert!(!rows_agree(&left, &right));
    assert!(!rows_agree(&right, &left));
}

#[test]
fn same_tiles_compares_whole_vectors() {
    let a = vec![TileType::Floor, TileType::Wall];
    assert!(same_tiles(&a, &vec![TileType::Floor, TileType::Wall]));
    assert!(!same_tiles(&a, &vec![TileType::Floor, TileType::Floor]));
    assert!(!same_tiles(&a, &vec![TileType::Floor]));
    assert!(same_tiles(&Vec::new(), &Vec::new()));
}

#[test]
fn tile_idx_in_chunk_is_row_major() {
    assert_eq!(tile_idx_in_chunk(8, 0, 0), 0);
    assert_eq!(tile_idx_in_chunk(8, 7, 0), 7);
    assert_eq!(tile_idx_in_chunk(8, 0, 1), 8);
    assert_eq!(tile_idx_in_chunk(8, 3, 5), 43);
    assert_eq!(tile_idx_in_chunk(8, 7, 7), 63);
}

#[test]
fn chunk_duplicate_copies_every_field() {
    let constraints = patterns_to_constraints(vec![pattern_with_floor(&[0]), pattern_with_floor(&[63])], 8);
    let copy: MapChunk = constraints[1].duplicate();
    assert_eq!(copy.pattern, constraints[1].pattern);
    assert_eq!(copy.has_exits, constraints[1].has_exits);
    for side in 0..4 {
        assert_eq!(copy.exits[side], constraints[1].exits[side]);
        assert_eq!(copy.compatible_with[side], constraints[1].compatible_with[side]);
    }
}

#[test]
fn stamp_copies_the_pattern_onto_the_map() {
    let mut map = TileMap::new(6, 5, 1, Some(TileType::Wall));
    let f = TileType::Floor;
    let v = TileType::Void;
    stamp_pattern(&mut map, &vec![f, v, v, f], 2, 3, 1);
    assert_eq!(map.tile(3, 1), f);
    assert_eq!(map.tile(4, 1), v);
    assert_eq!(map.tile(3, 2), v);
    assert_eq!(map.tile(4, 2), f);
    assert_eq!(map.tiles.iter().filter(|t| **t == TileType::Wall).count(), 26);
}

#[test]
fn rendering_marks_exits_and_shows_the_chunk() {
    let constraints = patterns_to_constraints(
        vec![vec![
            TileType::Floor,
            TileType::Wall,
            TileType::Wall,
            TileType::Wall,
            TileType::Floor,
            TileType::Wall,
            TileType::Wall,
            TileType::Floor,
            TileType::Wall,
        ]],
        3,
    );
    let mut map = TileMap::new(6, 5, 1, None);
    render_pattern_to_map(&mut map, &constraints[0], 3, 2, 1);
    assert_eq!(map.tile(2, 1), TileType::Placeholder);
    assert_eq!(map.tile(3, 1), TileType::Wall);
    assert_eq!(map.tile(3, 2), TileType::Floor);
    assert_eq!(map.tile(3, 3), TileType::Placeholder);
    assert_eq!(map.tile(4, 3), TileType::Wall);
    assert_eq!(map.tile(1, 1), TileType::Void);
    for y in 0..5 {
        for x in 0..6 {
            let inside = x >= 2 && x < 5 && y >= 1 && y < 4;
            assert_eq!(map.visible_tiles[map.xy_idx(x, y)], inside);
        }
    }
    assert_eq!(map.revealed_tiles, vec![false; 30]);
}

#[test]
fn list_holds_finds_members() {
    let list = vec![3usize, 1, 4];
    assert!(list_holds(&list, 4));
    assert!(list_holds(&list, 3));
    assert!(!list_holds(&list, 2));
    assert!(!list_holds(&Vec::new(), 0));
}

#[test]
fn new_solver_has_one_empty_slot_per_chunk() {
    let map = TileMap::new(80, 43, 1, Some(TileType::Wall));
    let constraints = patterns_to_constraints(vec![vec![TileType::Wall; 64]], 8);
    let solver = Solver::new(constraints, 8, &map);
    assert_eq!(solver.chunks_x, 10);
    assert_eq!(solver.chunks_y, 5);
    assert_eq!(solver.chunk_size, 8);
    assert_eq!(solver.chunks, vec![None; 50]);
    assert_eq!(solver.remaining.len(), 50);
    for i in 0..50 {
        assert_eq!(solver.remaining[i], (i, 0));
    }
    assert!(solver.possible);
    assert_eq!(solver.chunk_idx(0, 0), 0);
    assert_eq!(solver.chunk_idx(3, 2), 23);
    assert_eq!(solver.chunk_idx(9, 4), 49);
}

#[test]
fn neighbours_are_counted_on_four_sides() {
    let map = TileMap::new(24, 24, 1, Some(TileType::Wall));
    let constraints = patterns_to_constraints(vec![vec![TileType::Wall; 64]], 8);
    let mut solver = Solver::new(constraints, 8, &map);
    assert_eq!(solver.count_neighbours(1, 1), 0);
    solver.chunks[1] = Some(0);
    solver.chunks[3] = Some(0);
    solver.chunks[0] = Some(0);
    assert_eq!(solver.count_neighbours(1, 1), 2);
    solver.chunks[5] = Some(0);
    solver.chunks[7] = Some(0);
    assert_eq!(solver.count_neighbours(1, 1), 4);
    assert_eq!(solver.count_neighbours(0, 0), 2);
    assert_eq!(solver.count_neighbours(2, 2), 2);
    assert_eq!(solver.count_neighbours(2, 0), 2);
    assert_eq!(solver.count_neighbours(0, 2), 2);
}

#[test]
fn prioritise_sorts_by_falling_count_and_keeps_order() {
    let map = TileMap::new(24, 24, 1, Some(TileType::Wall));
    let constraints = patterns_to_constraints(vec![vec![TileType::Wall; 64]], 8);
    let mut solver = Solver::new(constraints, 8, &map);
    solver.chunks[4] = Some(0);
    solver.remaining = vec![(8, 9), (0, 9), (1, 9), (2, 9), (3, 9), (5, 9), (6, 9), (7, 9)];
    solver.prioritise();
    assert_eq!(
        solver.remaining,
        vec![(1, 1), (3, 1), (5, 1), (7, 1), (8, 0), (0, 0), (2, 0), (6, 0)]
    );
    solver.chunks[1] = Some(0);
    solver.remaining = vec![(8, 0), (0, 0), (2, 0), (6, 0), (3, 1), (5, 1), (7, 1)];
    solver.prioritise();
    assert_eq!(
        solver.remaining,
        vec![(0, 1), (2, 1), (3, 1), (5, 1), (7, 1), (8, 0), (6, 0)]
    );
}

#[test]
fn candidates_are_listed_by_every_filled_neighbour() {
    let map = TileMap::new(24, 24, 1, Some(TileType::Wall));
    let a = pattern_with_floor(&[0]);
    let b = pattern_with_floor(&[63]);
    let constraints = patterns_to_constraints(vec![a, b], 8);
    let mut solver = Solver::new(constraints, 8, &map);
    assert_eq!(solver.candidates(1, 1), vec![0usize, 1]);
    solver.chunks[3] = Some(1);
    assert_eq!(solver.candidates(1, 1), vec![1usize]);
    solver.chunks[3] = Some(0);
    assert_eq!(solver.candidates(1, 1), vec![0usize, 1]);
    solver.chunks[7] = Some(0);
    assert_eq!(solver.candidates(1, 1), vec![0usize]);
    solver.chunks[1] = Some(1);
    assert_eq!(solver.candidates(1, 1), Vec::<usize>::new());
    solver.chunks[1] = Some(0);
    assert_eq!(solver.candidates(1, 1), vec![0usize]);
    solver.chunks[5] = Some(0);
    assert_eq!(solver.candidates(1, 1), vec![0usize]);
    solver.chunks[3] = Some(1);
    assert_eq!(solver.candidates(1, 1), Vec::<usize>::new());
    assert_eq!(solver.candidates(0, 0), vec![0usize]);
}

#[test]
fn place_fills_the_slot_and_stamps_the_map() {
    let mut map = TileMap::new(24, 24, 1, Some(TileType::Wall));
    let constraints = patterns_to_constraints(vec![vec![TileType::Wall; 64], vec![TileType::Floor; 64]], 8);
    let mut solver = Solver::new(constraints, 8, &map);
    solver.remaining.remove(5);
    solver.place(&mut map, 2, 1, 1);
    assert_eq!(solver.chunks[5], Some(1));
    assert_eq!(solver.chunks.iter().filter(|c| c.is_some()).count(), 1);
    for y in 0..24 {
        for x in 0..24 {
            let inside = x >= 16 && y >= 8 && y < 16;
            let expected = if inside { TileType::Floor } else { TileType::Wall };
            assert_eq!(map.tile(x, y), expected);
        }
    }
}

#[test]
fn single_solid_pattern_fills_every_slot() {
    let mut map = TileMap::new(80, 43, 1, Some(TileType::Floor));
    let constraints = patterns_to_constraints(vec![vec![TileType::Wall; 64]], 8);
    assert!(!constraints[0].has_exits);
    let mut solver = Solver::new(constraints, 8, &map);
    let mut rng = RandomNumberGenerator::seeded(11);
    let mut placed = 0;
    while !solver.iteration(&mut map, &mut rng) {
        placed += 1;
        assert!(placed <= 50);
        assert_eq!(solver.remaining.len(), 50 - placed);
    }
    assert_eq!(placed, 50);
    assert!(solver.possible);
    assert_eq!(solver.chunks, vec![Some(0); 50]);
    assert!(solver.remaining.is_empty());
    for y in 0..43 {
        for x in 0..80 {
            let expected = if y < 40 { TileType::Wall } else { TileType::Floor };
            assert_eq!(map.tile(x, y), expected);
        }
    }
    assert!(solver.iteration(&mut map, &mut rng));
    assert!(solver.possible);
}

#[test]
fn contradiction_clears_possible() {
    let mut map = TileMap::new(16, 8, 1, Some(TileType::Wall));
    let a = pattern_with_floor(&[31]);
    let constraints = patterns_to_constraints(vec![a], 8);
    let mut table = constraints;
    table[0].compatible_with[2] = Vec::new();
    table[0].compatible_with[3] = Vec::new();
    let mut solver = Solver::new(table, 8, &map);
    let mut rng = RandomNumberGenerator::seeded(3);
    assert!(!solver.iteration(&mut map, &mut rng));
    assert!(solver.possible);
    assert!(solver.iteration(&mut map, &mut rng));
    assert!(!solver.possible);
    assert_eq!(solver.chunks.iter().filter(|c| c.is_some()).count(), 1);
}

#[test]
fn solved_grids_have_agreeing_borders() {
    let mut source = TileMap::new(80, 43, 1, Some(TileType::Wall));
    for y in 1..42 {
        for x in 1..79 {
            if (x % 8 == 3 && y % 16 < 12) || y % 8 == 4 || (x % 16 == 11 && y % 8 != 0) {
                source.set_tile(x, y, TileType::Floor);
            }
        }
    }
    let patterns = build_patterns(&source, 8, true, true);
    let constraints = patterns_to_constraints(patterns, 8);
    let mut solved = 0;
    for seed in 1..200u64 {
        let mut map = TileMap::new(80, 43, 1, Some(TileType::Wall));
        let table: Vec<MapChunk> = constraints.iter().map(|c| c.duplicate()).collect();
        let mut solver = Solver::new(table, 8, &map);
        let mut rng = RandomNumberGenerator::seeded(seed);
        while !solver.iteration(&mut map, &mut rng) {}
        for y in 0..5usize {
            for x in 0..10usize {
                let here = match solver.chunks[y * 10 + x] {
                    Some(p) => p,
                    None => continue,
                };
                if x + 1 < 10 {
                    if let Some(right) = solver.chunks[y * 10 + x + 1] {
                        assert!(rows_agree(
                            &solver.constraints[here].exits[3],
                            &solver.constraints[right].exits[2]
                        ));
                    }
                }
                if y + 1 < 5 {
                    if let Some(below) = solver.chunks[(y + 1) * 10 + x] {
                        assert!(rows_agree(
                            &solver.constraints[here].exits[1],
                            &solver.constraints[below].exits[0]
                        ));
                    }
                }
            }
        }
        if solver.possible {
            solved += 1;
            assert!(solver.chunks.iter().all(|c| c.is_some()));
            for y in 0..5usize {
                for x in 0..10usize {
                    let p = solver.chunks[y * 10 + x].unwrap();
                    for py in 0..8usize {
                        for px in 0..8usize {
                            assert_eq!(
                                map.tile((x * 8 + px) as i32, (y * 8 + py) as i32),
                                solver.constraints[p].pattern[py * 8 + px]
                            );
                        }
                    }
                }
            }
        } else {
            assert!(solver.chunks.iter().any(|c| c.is_none()));
        }
        if solved >= 3 {
            break;
        }
    }
    assert!(solved >= 1);
}

#[test]
fn a_run_ends_filled_or_in_contradiction() {
    let mut source = TileMap::new(80, 43, 1, Some(TileType::Wall));
    for y in 1..42 {
        for x in 1..79 {
            if y % 8 == 3 || x % 8 == 5 {
                source.set_tile(x, y, TileType::Floor);
            }
        }
    }
    let constraints = patterns_to_constraints(build_patterns(&source, 8, true, true), 8);
    let mut filled = 0;
    for seed in 0..40u64 {
        let mut map = TileMap::new(80, 43, 1, Some(TileType::Wall));
        let table: Vec<MapChunk> = constraints.iter().map(|c| c.duplicate()).collect();
        let mut solver = Solver::new(table, 8, &map);
        let mut rng = RandomNumberGenerator::seeded(seed);
        let possible = solver.run(&mut map, &mut rng);
        assert_eq!(possible, solver.possible);
        if possible {
            filled += 1;
            assert!(solver.remaining.is_empty());
            assert!(solver.chunks.iter().all(|c| c.is_some()));
        } else {
            assert!(solver.chunks.iter().any(|c| c.is_none()));
        }
    }
    assert!(filled >= 1);
    let mut map = TileMap::new(80, 43, 1, Some(TileType::Floor));
    let solid = patterns_to_constraints(vec![vec![TileType::Wall; 64]], 8);
    let mut solver = Solver::new(solid, 8, &map);
    let mut rng = RandomNumberGenerator::seeded(1);
    assert!(solver.run(&mut map, &mut rng));
    assert_eq!(solver.chunks, vec![Some(0); 50]);
}

#[test]
fn image_layers_hands_out_every_cell() {
    let mut xp_file = rltk::XpFile::new(3, 2);
    xp_file.layers[0].get_mut(2, 1).unwrap().ch = 35;
    xp_file.layers[0].get_mut(0, 1).unwrap().ch = 32;
    let layers = dungeon_gen::map_builder::waveform_collapse::image_loader::image_layers(&xp_file);
    assert_eq!(layers.len(), 1);
    assert_eq!(layers[0].width, 3);
    assert_eq!(layers[0].height, 2);
    assert_eq!(layers[0].glyphs.len(), 6);
    assert_eq!(layers[0].get(2, 1), Some(35));
    assert_eq!(layers[0].get(0, 1), Some(32));
    assert_eq!(layers[0].get(3, 0), None);
}
