use dungeon_gen::map::{TileMap, TileType};
use dungeon_gen::map_builder::common::{
    place_exit, remove_unreachable_areas_returning_most_distant,
};
use dungeon_gen::map_builder::distance::{
    distance_field, CARDINAL_COST, DIAGONAL_COST, MAX_COST, UNREACHED,
};

fn map_from(rows: &[&str]) -> TileMap {
    let height = rows.len() as i32;
    let width = rows[0].len() as i32;
    let mut map = TileMap::new(width, height, 1, Some(TileType::Wall));
    for (y, row) in rows.iter().enumerate() {
        for (x, c) in row.chars().enumerate() {
            let tile = match c {
                '.' => TileType::Floor,
                '#' => TileType::Wall,
                ' ' => TileType::Void,
                '>' => TileType::DownStairs,
                _ => TileType::Placeholder,
            };
            map.set_tile(x as i32, y as i32, tile);
        }
    }
    map.populate_blocked();
    map
}

#[test]
fn step_costs_are_millionths() {
    assert_eq!(CARDINAL_COST, 1000000);
    assert_eq!(DIAGONAL_COST, 1414214);
    assert_eq!(MAX_COST, 200000000);
    assert_eq!(UNREACHED, u32::MAX);
}

#[test]
fn distances_on_open_ground() {
    let map = map_from(&[".....", ".....", ".....", ".....", "....."]);
    let start = map.xy_idx(1, 1);
    let dist = distance_field(&map, start, MAX_COST);
    assert_eq!(dist.len(), 25);
    assert_eq!(dist[start], 0);
    assert_eq!(dist[map.xy_idx(2, 1)], 1000000);
    assert_eq!(dist[map.xy_idx(1, 2)], 1000000);
    assert_eq!(dist[map.xy_idx(2, 2)], 1414214);
    assert_eq!(dist[map.xy_idx(3, 1)], 2000000);
    assert_eq!(dist[map.xy_idx(1, 3)], 2000000);
    assert_eq!(dist[map.xy_idx(3, 3)], 2828428);
    assert_eq!(dist[map.xy_idx(4, 2)], 3414214);
    assert_eq!(dist[map.xy_idx(4, 4)], 4242642);
}

#[test]
fn first_row_and_column_are_entered_like_any_other() {
    let map = map_from(&[".....", ".....", ".....", ".....", "....."]);
    let dist = distance_field(&map, map.xy_idx(2, 2), MAX_COST);
    assert_eq!(dist[map.xy_idx(0, 0)], 2828428);
    assert_eq!(dist[map.xy_idx(2, 0)], 2000000);
    assert_eq!(dist[map.xy_idx(0, 2)], 2000000);
    assert_eq!(dist[map.xy_idx(1, 0)], 2414214);
    assert_eq!(dist[map.xy_idx(0, 3)], 2414214);
    assert_eq!(dist[map.xy_idx(4, 4)], 2828428);
    assert!(dist.iter().all(|d| *d != UNREACHED));
}

#[test]
fn floor_in_the_first_column_is_kept_and_can_be_the_exit() {
    let mut map = map_from(&["###", "..#", "###"]);
    let start = map.xy_idx(1, 1);
    let exit = remove_unreachable_areas_returning_most_distant(&mut map, start);
    assert_eq!(exit, Some(map.xy_idx(0, 1)));
    assert_eq!(map.tile(0, 1), TileType::Floor);
    assert_eq!(map.tile(1, 1), TileType::Floor);
}

#[test]
fn a_route_just_over_the_cap_is_not_followed() {
    let mut rows: Vec<String> = Vec::new();
    for y in 0..101 {
        let mut row = String::new();
        for x in 0..161 {
            let on_diagonal = x == y && y <= 99;
            let on_row = y == 99 && x >= 99 && x <= 159;
            row.push(if on_diagonal || on_row { '.' } else { '#' });
        }
        rows.push(row);
    }
    let refs: Vec<&str> = rows.iter().map(|r| r.as_str()).collect();
    let mut map = map_from(&refs);
    let start = map.xy_idx(0, 0);
    let dist = distance_field(&map, start, MAX_COST);
    assert_eq!(dist[map.xy_idx(99, 99)], 99 * 1414214);
    assert_eq!(dist[map.xy_idx(158, 99)], 99 * 1414214 + 59 * 1000000);
    assert_eq!(dist[map.xy_idx(159, 99)], UNREACHED);
    let exit = remove_unreachable_areas_returning_most_distant(&mut map, start);
    assert_eq!(exit, Some(map.xy_idx(158, 99)));
    assert_eq!(map.tile(159, 99), TileType::Wall);
    assert_eq!(map.tile(158, 99), TileType::Floor);
}

#[test]
fn routes_go_around_walls() {
    let map = map_from(&["#######", "#..#..#", "#..#..#", "#.....#", "#######"]);
    let start = map.xy_idx(1, 1);
    let dist = distance_field(&map, start, MAX_COST);
    assert_eq!(dist[map.xy_idx(3, 1)], UNREACHED);
    assert_eq!(dist[map.xy_idx(2, 3)], 1414214 + 1000000);
    assert_eq!(dist[map.xy_idx(3, 3)], 1414214 + 1414214);
    assert_eq!(dist[map.xy_idx(4, 2)], 1414214 + 1414214 + 1414214);
    assert_eq!(dist[map.xy_idx(4, 1)], 1414214 + 1414214 + 1414214 + 1000000);
    assert_eq!(dist[map.xy_idx(5, 1)], 1414214 + 1414214 + 1414214 + 1414214);
}

#[test]
fn routes_at_the_cap_are_not_followed() {
    let map = map_from(&[".....", ".....", ".....", ".....", "....."]);
    let start = map.xy_idx(1, 1);
    let dist = distance_field(&map, start, 2000000);
    assert_eq!(dist[map.xy_idx(2, 2)], 1414214);
    assert_eq!(dist[map.xy_idx(2, 1)], 1000000);
    assert_eq!(dist[map.xy_idx(3, 1)], UNREACHED);
    assert_eq!(dist[map.xy_idx(3, 3)], UNREACHED);
    let wider = distance_field(&map, start, 2000001);
    assert_eq!(wider[map.xy_idx(3, 1)], 2000000);
    assert_eq!(wider[map.xy_idx(3, 2)], UNREACHED);
}

#[test]
fn start_on_a_wall_still_reaches_its_neighbours() {
    let map = map_from(&["#####", "##..#", "#####"]);
    let start = map.xy_idx(1, 1);
    let dist = distance_field(&map, start, MAX_COST);
    assert_eq!(dist[start], 0);
    assert_eq!(dist[map.xy_idx(2, 1)], 1000000);
    assert_eq!(dist[map.xy_idx(3, 1)], 2000000);
}

#[test]
fn pruning_walls_up_cut_off_floor() {
    let mut map = map_from(&["#######", "#...###", "#######", "#####.#", "#######"]);
    let start = map.xy_idx(1, 1);
    let pocket = map.xy_idx(5, 3);
    let exit = remove_unreachable_areas_returning_most_distant(&mut map, start);
    assert_eq!(exit, Some(map.xy_idx(3, 1)));
    assert_eq!(map.tiles[pocket], TileType::Wall);
    assert_eq!(map.tile(1, 1), TileType::Floor);
    assert_eq!(map.tile(2, 1), TileType::Floor);
    assert_eq!(map.tile(3, 1), TileType::Floor);
    assert_eq!(map.tiles.iter().filter(|t| **t == TileType::Floor).count(), 3);
}

#[test]
fn pruning_takes_the_first_of_the_farthest() {
    let mut map = map_from(&["#####", "#...#", "#...#", "#...#", "#####"]);
    let start = map.xy_idx(2, 2);
    let exit = remove_unreachable_areas_returning_most_distant(&mut map, start);
    assert_eq!(exit, Some(map.xy_idx(1, 1)));
    assert_eq!(map.tiles.iter().filter(|t| **t == TileType::Floor).count(), 9);
}

#[test]
fn pruning_refreshes_the_blocked_flags() {
    let mut map = map_from(&["####", "#..#", "####"]);
    map.blocked = vec![false; 12];
    let start = map.xy_idx(1, 1);
    let _ = remove_unreachable_areas_returning_most_distant(&mut map, start);
    for i in 0..12usize {
        assert_eq!(map.blocked[i], i != 5 && i != 6);
    }
}

#[test]
fn pruning_finds_no_exit_for_a_lonely_start() {
    let mut map = map_from(&["#####", "#.#.#", "#####"]);
    let start = map.xy_idx(1, 1);
    let exit = remove_unreachable_areas_returning_most_distant(&mut map, start);
    assert_eq!(exit, None);
    assert_eq!(map.tile(1, 1), TileType::Floor);
    assert_eq!(map.tile(3, 1), TileType::Wall);
}

#[test]
fn pruning_cuts_what_lies_beyond_the_cap() {
    let mut map = TileMap::new(80, 43, 1, Some(TileType::Wall));
    let mut x = 1;
    let mut y = 1;
    let mut right = true;
    let mut carved = 0;
    while y < 42 {
        map.set_tile(x, y, TileType::Floor);
        carved += 1;
        if right && x < 78 {
            x += 1;
        } else if !right && x > 1 {
            x -= 1;
        } else {
            map.set_tile(x, y + 1, TileType::Floor);
            carved += 1;
            y += 2;
            right = !right;
        }
    }
    assert!(carved > 400);
    let start = map.xy_idx(1, 1);
    let exit = remove_unreachable_areas_returning_most_distant(&mut map, start);
    let left = map.tiles.iter().filter(|t| **t == TileType::Floor).count();
    assert!(left < carved);
    assert!(left >= 195 && left <= 210);
    let e = exit.unwrap();
    let dist = {
        let mut copy = map.duplicate();
        copy.populate_blocked();
        distance_field(&copy, start, MAX_COST)
    };
    assert!(dist[e] < MAX_COST);
    assert!(dist[e] >= MAX_COST - 1414214);
}

#[test]
fn place_exit_puts_one_stairway_on_the_farthest_tile() {
    let mut map = map_from(&["#######", "#.....#", "#####.#", "#.###.#", "#######"]);
    let start = map.xy_idx(1, 1);
    let exit = place_exit(&mut map, start);
    assert_eq!(exit, Some(map.xy_idx(5, 3)));
    assert_eq!(map.tile(5, 3), TileType::DownStairs);
    assert_eq!(map.tile(1, 3), TileType::Wall);
    assert_eq!(map.tiles.iter().filter(|t| **t == TileType::DownStairs).count(), 1);
    assert_eq!(map.tile(1, 1), TileType::Floor);
}

#[test]
fn place_exit_leaves_a_lonely_start_without_stairs() {
    let mut map = map_from(&["####", "#.##", "####"]);
    let start = map.xy_idx(1, 1);
    assert_eq!(place_exit(&mut map, start), None);
    assert_eq!(map.tiles.iter().filter(|t| **t == TileType::DownStairs).count(), 0);
    assert_eq!(map.tile(1, 1), TileType::Floor);
}

#[test]
fn every_floor_tile_left_by_pruning_is_reached() {
    let mut map = map_from(&[
        "##########",
        "#..#.....#",
        "#..#.###.#",
        "#..#.#.#.#",
        "#....###.#",
        "##########",
    ]);
    let start = map.xy_idx(1, 1);
    let _ = remove_unreachable_areas_returning_most_distant(&mut map, start);
    assert_eq!(map.tile(6, 3), TileType::Wall);
    let mut after = map.duplicate();
    after.populate_blocked();
    let dist = distance_field(&after, start, MAX_COST);
    for i in 0..after.tiles.len() {
        if after.tiles[i] == TileType::Floor {
            assert_ne!(dist[i], UNREACHED);
        }
    }
}
