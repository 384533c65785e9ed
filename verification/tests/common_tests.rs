use dungeon_gen::map::{TileMap, TileType};
use dungeon_gen::map_builder::common::{
    apply_horizontal_tunnel, apply_paint, apply_room_to_map, apply_vertical_tunnel, count_floor,
    draw_corridor, find_floor_leftward, generate_voronoi_spawn_regions, paint, snapshot, stagger,
    BuildError, Symmetry,
};
use dungeon_gen::rect::Rect;

fn floor_cells(map: &TileMap) -> Vec<(i32, i32)> {
    let mut cells = Vec::new();
    for y in 0..map.height {
        for x in 0..map.width {
            if map.tile(x, y) == TileType::Floor {
                cells.push((x, y));
            }
        }
    }
    cells
}

#[test]
fn snapshot_reveals_everything() {
    let mut map = TileMap::new(4, 3, 2, Some(TileType::Wall));
    map.set_tile(1, 1, TileType::Floor);
    map.revealed_tiles[3] = true;
    let snap = snapshot(&map);
    assert_eq!(snap.tiles, map.tiles);
    assert_eq!(snap.width, 4);
    assert_eq!(snap.height, 3);
    assert_eq!(snap.depth, 2);
    assert_eq!(snap.revealed_tiles, vec![true; 12]);
    assert_eq!(snap.visible_tiles, vec![true; 12]);
    assert_eq!(map.visible_tiles, vec![false; 12]);
}

#[test]
fn room_has_walls_around_floor() {
    let mut map = TileMap::new(10, 10, 1, None);
    apply_room_to_map(&mut map, &Rect::new(2, 2, 3, 3));
    for y in 0..10 {
        for x in 0..10 {
            let expected = if x < 2 || x > 6 || y < 2 || y > 6 {
                TileType::Void
            } else if x == 2 || x == 6 || y == 2 || y == 6 {
                TileType::Wall
            } else {
                TileType::Floor
            };
            assert_eq!(map.tile(x, y), expected);
        }
    }
}

#[test]
fn corridor_runs_along_the_row_then_the_column() {
    let mut map = TileMap::new(10, 10, 1, None);
    draw_corridor(&mut map, 2, 2, 5, 6);
    assert_eq!(
        floor_cells(&map),
        vec![(3, 2), (4, 2), (5, 2), (5, 3), (5, 4), (5, 5), (5, 6)]
    );
    assert_eq!(map.tile(2, 2), TileType::Wall);
    assert_eq!(map.tile(2, 1), TileType::Wall);
    assert_eq!(map.tile(1, 1), TileType::Void);
    assert_eq!(map.tile(6, 7), TileType::Wall);
    assert_eq!(map.tile(4, 7), TileType::Wall);
    assert_eq!(map.tile(7, 7), TileType::Void);
    assert_eq!(map.tile(3, 4), TileType::Void);
    assert_eq!(map.tile(4, 4), TileType::Wall);
}

#[test]
fn corridor_runs_backwards_too() {
    let mut map = TileMap::new(10, 10, 1, Some(TileType::Wall));
    draw_corridor(&mut map, 6, 6, 3, 4);
    assert_eq!(floor_cells(&map), vec![(3, 4), (3, 5), (3, 6), (4, 6), (5, 6)]);
}

#[test]
fn corridor_of_no_length_changes_nothing() {
    let mut map = TileMap::new(6, 6, 1, None);
    draw_corridor(&mut map, 3, 3, 3, 3);
    assert_eq!(map.tiles, vec![TileType::Void; 36]);
}

#[test]
fn corridor_leaves_floor_beside_it_alone() {
    let mut map = TileMap::new(8, 6, 1, None);
    map.set_tile(3, 3, TileType::Floor);
    map.set_tile(3, 1, TileType::DownStairs);
    draw_corridor(&mut map, 1, 2, 5, 2);
    assert_eq!(map.tile(3, 3), TileType::Floor);
    assert_eq!(map.tile(3, 1), TileType::Wall);
    assert_eq!(map.tile(2, 3), TileType::Wall);
}

#[test]
fn tunnels_order_their_ends() {
    let mut a = TileMap::new(10, 6, 1, None);
    let mut b = TileMap::new(10, 6, 1, None);
    apply_horizontal_tunnel(&mut a, 7, 2, 3);
    draw_corridor(&mut b, 2, 3, 7, 3);
    assert_eq!(a.tiles, b.tiles);
    assert_eq!(floor_cells(&a), vec![(3, 3), (4, 3), (5, 3), (6, 3), (7, 3)]);
    let mut c = TileMap::new(6, 10, 1, None);
    apply_vertical_tunnel(&mut c, 8, 3, 2);
    assert_eq!(floor_cells(&c), vec![(2, 4), (2, 5), (2, 6), (2, 7), (2, 8)]);
}

#[test]
fn brush_of_one_paints_one_cell() {
    let mut map = TileMap::new(10, 10, 1, Some(TileType::Wall));
    apply_paint(&mut map, 1, 0, 9, TileType::Floor);
    assert_eq!(floor_cells(&map), vec![(0, 9)]);
}

#[test]
fn larger_brush_paints_a_clipped_square() {
    let mut map = TileMap::new(10, 10, 1, Some(TileType::Wall));
    apply_paint(&mut map, 2, 4, 4, TileType::Floor);
    assert_eq!(floor_cells(&map), vec![(3, 3), (4, 3), (3, 4), (4, 4)]);
    let mut edge = TileMap::new(10, 10, 1, Some(TileType::Wall));
    apply_paint(&mut edge, 4, 1, 8, TileType::DownStairs);
    let stairs: Vec<usize> =
        (0..100).filter(|i| edge.tiles[*i] == TileType::DownStairs).collect();
    assert_eq!(stairs, vec![62, 72, 82]);
    let mut none = TileMap::new(10, 10, 1, Some(TileType::Wall));
    apply_paint(&mut none, 0, 4, 4, TileType::Floor);
    apply_paint(&mut none, -3, 4, 4, TileType::Floor);
    assert_eq!(floor_cells(&none), Vec::new());
}

#[test]
fn paint_mirrors_the_brush() {
    let mut h = TileMap::new(10, 10, 1, Some(TileType::Wall));
    paint(&mut h, Symmetry::Horizontal, 1, 3, 4, None);
    assert_eq!(floor_cells(&h), vec![(3, 4), (7, 4)]);
    let mut v = TileMap::new(10, 10, 1, Some(TileType::Wall));
    paint(&mut v, Symmetry::Vertical, 1, 3, 4, None);
    assert_eq!(floor_cells(&v), vec![(3, 4), (3, 6)]);
    let mut b = TileMap::new(10, 10, 1, Some(TileType::Wall));
    paint(&mut b, Symmetry::Both, 1, 3, 4, None);
    assert_eq!(floor_cells(&b), vec![(3, 4), (7, 4), (3, 6)]);
    let mut n = TileMap::new(10, 10, 1, Some(TileType::Wall));
    paint(&mut n, Symmetry::Neither, 1, 3, 4, Some(TileType::DownStairs));
    assert_eq!(n.tile(3, 4), TileType::DownStairs);
    assert_eq!(n.tiles.iter().filter(|t| **t != TileType::Wall).count(), 1);
    let mut c = TileMap::new(10, 10, 1, Some(TileType::Wall));
    paint(&mut c, Symmetry::Both, 1, 5, 5, None);
    assert_eq!(floor_cells(&c), vec![(5, 5)]);
    let mut hc = TileMap::new(10, 10, 1, Some(TileType::Wall));
    paint(&mut hc, Symmetry::Horizontal, 1, 5, 2, None);
    assert_eq!(floor_cells(&hc), vec![(5, 2)]);
}

#[test]
fn regions_group_inner_floor_by_value() {
    let mut map = TileMap::new(5, 5, 1, Some(TileType::Wall));
    map.set_tile(1, 1, TileType::Floor);
    map.set_tile(2, 1, TileType::Floor);
    map.set_tile(3, 3, TileType::Floor);
    map.set_tile(0, 0, TileType::Floor);
    map.set_tile(4, 2, TileType::Floor);
    map.set_tile(2, 2, TileType::DownStairs);
    let mut values = vec![0i32; 25];
    values[6] = 7;
    values[7] = 7;
    values[18] = -3;
    values[0] = 9;
    values[14] = 9;
    values[12] = 5;
    let areas = generate_voronoi_spawn_regions(&map, &values);
    assert_eq!(areas.len(), 2);
    assert_eq!(areas.get(&7), Some(&vec![6usize, 7]));
    assert_eq!(areas.get(&-3), Some(&vec![18usize]));
    assert_eq!(areas.get(&9), None);
    assert_eq!(areas.get(&5), None);
}

#[test]
fn every_inner_floor_tile_is_in_exactly_one_region() {
    let mut map = TileMap::new(9, 7, 1, Some(TileType::Wall));
    let mut values = Vec::new();
    for y in 0..7 {
        for x in 0..9 {
            if (x + y) % 3 != 0 {
                map.set_tile(x, y, TileType::Floor);
            }
            values.push((x * y) % 4 - 1);
        }
    }
    let areas = generate_voronoi_spawn_regions(&map, &values);
    for y in 0..7 {
        for x in 0..9 {
            let idx = map.xy_idx(x, y);
            let inner = x >= 1 && x < 8 && y >= 1 && y < 6;
            let mut found = 0;
            for (id, members) in areas.iter() {
                let times = members.iter().filter(|m| **m == idx).count();
                assert!(times <= 1);
                if times == 1 {
                    found += 1;
                    assert_eq!(*id, values[idx]);
                }
            }
            if inner && map.tiles[idx] == TileType::Floor {
                assert_eq!(found, 1);
            } else {
                assert_eq!(found, 0);
            }
        }
    }
    for members in areas.values() {
        assert!(!members.is_empty());
        for pair in members.windows(2) {
            assert!(pair[0] < pair[1]);
        }
    }
}

#[test]
fn count_floor_counts_floor_only() {
    let mut map = TileMap::new(4, 4, 1, Some(TileType::Wall));
    assert_eq!(count_floor(&map), 0);
    map.set_tile(0, 0, TileType::Floor);
    map.set_tile(3, 3, TileType::Floor);
    map.set_tile(1, 2, TileType::DownStairs);
    assert_eq!(count_floor(&map), 2);
}

#[test]
fn stagger_moves_one_step_inside_the_box() {
    assert_eq!(stagger(5, 5, 1, 80, 43), (4, 5));
    assert_eq!(stagger(5, 5, 2, 80, 43), (6, 5));
    assert_eq!(stagger(5, 5, 3, 80, 43), (5, 4));
    assert_eq!(stagger(5, 5, 4, 80, 43), (5, 6));
    assert_eq!(stagger(5, 5, 0, 80, 43), (5, 6));
    assert_eq!(stagger(2, 5, 1, 80, 43), (2, 5));
    assert_eq!(stagger(78, 5, 2, 80, 43), (78, 5));
    assert_eq!(stagger(77, 5, 2, 80, 43), (78, 5));
    assert_eq!(stagger(5, 2, 3, 80, 43), (5, 2));
    assert_eq!(stagger(5, 41, 4, 80, 43), (5, 41));
    assert_eq!(stagger(5, 40, 4, 80, 43), (5, 41));
}

#[test]
fn find_floor_leftward_takes_the_nearest() {
    let mut map = TileMap::new(8, 3, 1, Some(TileType::Wall));
    assert_eq!(find_floor_leftward(&map, 5, 1), None);
    map.set_tile(0, 1, TileType::Floor);
    map.set_tile(3, 1, TileType::Floor);
    map.set_tile(7, 1, TileType::Floor);
    map.set_tile(4, 0, TileType::Floor);
    assert_eq!(find_floor_leftward(&map, 5, 1), Some(3));
    assert_eq!(find_floor_leftward(&map, 3, 1), Some(3));
    assert_eq!(find_floor_leftward(&map, 2, 1), Some(0));
    assert_eq!(find_floor_leftward(&map, 3, 0), None);
    assert_eq!(find_floor_leftward(&map, 7, 2), None);
}

#[test]
fn build_errors_are_distinct() {
    let all = [
        BuildError::NoRooms,
        BuildError::NoStart,
        BuildError::NoExit,
        BuildError::StepLimit,
        BuildError::Unsolvable,
    ];
    for i in 0..all.len() {
        for j in 0..all.len() {
            assert_eq!(all[i] == all[j], i == j);
        }
    }
}
