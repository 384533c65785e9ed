use dungeon_gen::components::Position;
use dungeon_gen::map::{
    copy_flags, copy_tiles, is_revealed_and_wall, wall_glyph, TileMap, TileType, MAP_HEIGHT, MAP_SIZE, MAP_WIDTH,
};
use dungeon_gen::rect::Rect;

#[test]
fn new_map_has_one_entry_per_cell() {
    let map = TileMap::new(7, 5, 3, Some(TileType::Wall));
    assert_eq!(map.width, 7);
    assert_eq!(map.height, 5);
    assert_eq!(map.depth, 3);
    assert_eq!(map.tiles.len(), 35);
    assert_eq!(map.revealed_tiles.len(), 35);
    assert_eq!(map.visible_tiles.len(), 35);
    assert_eq!(map.blocked.len(), 35);
    assert!(map.tiles.iter().all(|t| *t == TileType::Wall));
    assert!(map.revealed_tiles.iter().all(|f| !*f));
    assert!(map.visible_tiles.iter().all(|f| !*f));
    assert!(map.blocked.iter().all(|f| !*f));
}

#[test]
fn new_map_without_fill_is_void() {
    let map = TileMap::new(3, 2, 1, None);
    assert_eq!(map.tiles, vec![TileType::Void; 6]);
}

#[test]
fn default_map_has_standard_size() {
    let map = TileMap::new_default(4);
    assert_eq!(MAP_WIDTH, 80);
    assert_eq!(MAP_HEIGHT, 43);
    assert_eq!(MAP_SIZE, 3440);
    assert_eq!(map.width, 80);
    assert_eq!(map.height, 43);
    assert_eq!(map.depth, 4);
    assert_eq!(map.tiles.len(), MAP_SIZE);
    assert!(map.tiles.iter().all(|t| *t == TileType::Void));
}

#[test]
fn xy_idx_is_row_major() {
    let map = TileMap::new(80, 43, 1, None);
    assert_eq!(map.xy_idx(0, 0), 0);
    assert_eq!(map.xy_idx(79, 0), 79);
    assert_eq!(map.xy_idx(0, 1), 80);
    assert_eq!(map.xy_idx(5, 2), 165);
    assert_eq!(map.xy_idx(79, 42), 3439);
}

#[test]
fn every_index_names_one_cell() {
    let map = TileMap::new(7, 5, 1, None);
    for i in 0..35usize {
        let x = (i % 7) as i32;
        let y = (i / 7) as i32;
        assert_eq!(map.xy_idx(x, y), i);
    }
}

#[test]
fn set_tile_changes_one_cell() {
    let mut map = TileMap::new(4, 3, 1, Some(TileType::Wall));
    map.set_tile(2, 1, TileType::Floor);
    for i in 0..12usize {
        if i == 6 {
            assert_eq!(map.tiles[i], TileType::Floor);
        } else {
            assert_eq!(map.tiles[i], TileType::Wall);
        }
    }
    assert_eq!(map.tile(2, 1), TileType::Floor);
    assert_eq!(map.tile(1, 2), TileType::Wall);
}

#[test]
fn populate_blocked_marks_walls_and_void() {
    let mut map = TileMap::new(5, 1, 1, None);
    map.tiles[0] = TileType::Void;
    map.tiles[1] = TileType::Placeholder;
    map.tiles[2] = TileType::Wall;
    map.tiles[3] = TileType::Floor;
    map.tiles[4] = TileType::DownStairs;
    map.populate_blocked();
    assert_eq!(map.blocked, vec![true, false, true, false, false]);
    assert_eq!(
        map.tiles,
        vec![TileType::Void, TileType::Placeholder, TileType::Wall, TileType::Floor, TileType::DownStairs]
    );
}

#[test]
fn is_void_or_wall_reads_the_tile() {
    let mut map = TileMap::new(3, 3, 1, None);
    map.set_tile(1, 1, TileType::Floor);
    map.set_tile(2, 1, TileType::Wall);
    map.set_tile(0, 2, TileType::DownStairs);
    assert!(map.is_void_or_wall(0, 0));
    assert!(!map.is_void_or_wall(1, 1));
    assert!(map.is_void_or_wall(2, 1));
    assert!(!map.is_void_or_wall(0, 2));
}

#[test]
fn cells_are_open_unless_blocked_or_off_the_map() {
    let mut map = TileMap::new(4, 4, 1, Some(TileType::Floor));
    map.set_tile(2, 2, TileType::Wall);
    map.set_tile(0, 3, TileType::Void);
    map.populate_blocked();
    assert!(map.is_open(0, 1));
    assert!(map.is_open(1, 0));
    assert!(map.is_open(0, 0));
    assert!(map.is_open(3, 3));
    assert!(!map.is_open(2, 2));
    assert!(!map.is_open(0, 3));
    assert!(!map.is_open(4, 1));
    assert!(!map.is_open(1, 4));
    assert!(!map.is_open(-1, 2));
}

#[test]
fn duplicate_is_independent() {
    let mut map = TileMap::new(3, 3, 2, Some(TileType::Wall));
    map.set_tile(1, 1, TileType::Floor);
    let mut copy = map.duplicate();
    assert_eq!(copy.tiles, map.tiles);
    assert_eq!(copy.width, 3);
    assert_eq!(copy.height, 3);
    assert_eq!(copy.depth, 2);
    copy.set_tile(0, 0, TileType::DownStairs);
    assert_eq!(map.tile(0, 0), TileType::Wall);
    assert_eq!(copy.tile(0, 0), TileType::DownStairs);
}

#[test]
fn copies_keep_every_entry() {
    let tiles = vec![TileType::Floor, TileType::Wall, TileType::Void];
    assert_eq!(copy_tiles(&tiles), tiles);
    let flags = vec![true, false, true, true];
    assert_eq!(copy_flags(&flags), flags);
    assert_eq!(copy_flags(&Vec::new()), Vec::<bool>::new());
}

#[test]
fn rect_new_adds_width_and_height() {
    let r = Rect::new(2, 3, 6, 4);
    assert_eq!(r.x1, 2);
    assert_eq!(r.y1, 3);
    assert_eq!(r.x2, 8);
    assert_eq!(r.y2, 7);
}

#[test]
fn rect_center_is_midpoint() {
    assert_eq!(Rect::new(2, 3, 6, 4).center(), (5, 5));
    assert_eq!(Rect::new(0, 0, 7, 9).center(), (3, 4));
    assert_eq!(Rect { x1: -5, x2: -2, y1: -3, y2: 0 }.center(), (-3, -1));
}

#[test]
fn rect_intersect_counts_touching() {
    let a = Rect::new(0, 0, 4, 4);
    assert!(a.intersect(&Rect::new(4, 4, 2, 2)));
    assert!(a.intersect(&Rect::new(2, 2, 6, 6)));
    assert!(!a.intersect(&Rect::new(5, 0, 2, 2)));
    assert!(!a.intersect(&Rect::new(0, 5, 2, 2)));
    assert!(Rect::new(5, 0, 2, 2).intersect(&Rect::new(5, 0, 2, 2)));
}

#[test]
fn rect_intersect_with_margin_grows_the_first() {
    let a = Rect::new(0, 0, 4, 4);
    let b = Rect::new(6, 0, 2, 2);
    assert!(!a.intersect_with_margin(&b, 0));
    assert!(!a.intersect_with_margin(&b, 1));
    assert!(a.intersect_with_margin(&b, 2));
    assert!(a.intersect_with_margin(&b, i32::MAX));
}

#[test]
fn position_compares_by_fields() {
    assert_eq!(Position { x: 1, y: 2 }, Position { x: 1, y: 2 });
    assert_ne!(Position { x: 1, y: 2 }, Position { x: 2, y: 1 });
}

#[test]
fn wall_glyphs_join_the_walls_around() {
    let mut map = TileMap::new(5, 5, 1, Some(TileType::Floor));
    assert_eq!(wall_glyph(&map, 2, 2), 9);
    map.set_tile(2, 1, TileType::Wall);
    assert_eq!(wall_glyph(&map, 2, 2), 186);
    map.set_tile(1, 2, TileType::Wall);
    assert_eq!(wall_glyph(&map, 2, 2), 188);
    map.set_tile(2, 3, TileType::Wall);
    assert_eq!(wall_glyph(&map, 2, 2), 185);
    map.set_tile(3, 2, TileType::Wall);
    assert_eq!(wall_glyph(&map, 2, 2), 206);
    map.set_tile(2, 1, TileType::Floor);
    assert_eq!(wall_glyph(&map, 2, 2), 203);
    map.set_tile(1, 2, TileType::Floor);
    assert_eq!(wall_glyph(&map, 2, 2), 201);
    map.set_tile(2, 3, TileType::Floor);
    assert_eq!(wall_glyph(&map, 2, 2), 205);
    assert_eq!(wall_glyph(&map, 0, 0), 9);
    assert_eq!(wall_glyph(&map, 4, 2), 205);
    assert_eq!(wall_glyph(&map, 3, 1), 186);
    assert!(is_revealed_and_wall(&map, 3, 2));
    assert!(!is_revealed_and_wall(&map, 2, 2));
    assert!(!is_revealed_and_wall(&map, -1, 2));
    assert!(!is_revealed_and_wall(&map, 5, 2));
    assert!(!is_revealed_and_wall(&map, 2, 5));
}
