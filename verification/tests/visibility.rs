use rustmud::components::Point;
use rustmud::map::{GameMap, TileType};
use rustmud::rect::Rect;
use rustmud::spawner::spawn_player;
use rustmud::visibility_system;
use rustmud::world::World;

/// An all-wall level with one 10x10 open room, walls pre-blocked.
fn one_room_map() -> GameMap {
    let mut map = GameMap::new(1);
    let room = Rect::new(4, 4, 12, 12);
    map.apply_room_to_map(&room);
    map.populate_blocked();
    map.rooms = vec![room];
    map
}

#[test]
fn visibility_is_symmetric() {
    let map = one_room_map();
    let pairs = [
        ((6, 6), (10, 10)),
        ((5, 5), (13, 9)),
        ((6, 12), (12, 6)),
        ((5, 9), (16, 9)),
        ((6, 6), (30, 30)),
    ];
    for ((ax, ay), (bx, by)) in pairs {
        let ab = visibility_system::is_visible_from(&map, ax, ay, bx, by, 8);
        let ba = visibility_system::is_visible_from(&map, bx, by, ax, ay, 8);
        assert_eq!(ab, ba);
    }
}

#[test]
fn walls_block_sight_and_range_limits_it() {
    let map = one_room_map();
    // inside the room, close: visible
    assert!(visibility_system::is_visible_from(&map, 6, 6, 9, 6, 8));
    // beyond the range
    assert!(!visibility_system::is_visible_from(&map, 5, 5, 15, 15, 8));
    // a tile sealed behind walls, close by
    assert!(!visibility_system::is_visible_from(&map, 5, 5, 2, 5, 8));
}

#[test]
fn recomputation_is_deterministic() {
    let map = one_room_map();
    let a = visibility_system::compute_viewshed(&map, 8, 8, 8);
    let b = visibility_system::compute_viewshed(&map, 8, 8, 8);
    assert_eq!(a, b);
    assert!(a.contains(&Point { x: 8, y: 8 }));
    assert!(a.contains(&Point { x: 10, y: 8 }));
    assert!(!a.contains(&Point { x: 1, y: 1 }));
}

#[test]
fn non_dirty_viewshed_is_left_unchanged() {
    let map1 = one_room_map();
    let mut map = one_room_map();
    let mut w = World::new();
    let p = spawn_player(&mut w, 8, 8);
    visibility_system::run(&mut map, &mut w);
    let first = w.viewshed[p].as_ref().unwrap().visible_tiles.clone();
    assert!(!w.viewshed[p].as_ref().unwrap().dirty);
    // run again with the flag clear: the set must be exactly the same
    visibility_system::run(&mut map, &mut w);
    let second = w.viewshed[p].as_ref().unwrap().visible_tiles.clone();
    assert_eq!(first, second);
    // marking dirty and recomputing with identical inputs reproduces it
    if let Some(v) = &mut w.viewshed[p] {
        v.dirty = true;
    }
    let mut map2 = map1;
    visibility_system::run(&mut map2, &mut w);
    let third = w.viewshed[p].as_ref().unwrap().visible_tiles.clone();
    assert_eq!(first, third);
}

#[test]
fn player_visibility_marks_visible_and_revealed() {
    let mut map = one_room_map();
    let mut w = World::new();
    let p = spawn_player(&mut w, 8, 8);
    visibility_system::run(&mut map, &mut w);
    let idx_self = map.xy_idx(8, 8);
    let idx_near = map.xy_idx(9, 8);
    assert!(map.visible_tiles[idx_self]);
    assert!(map.visible_tiles[idx_near]);
    assert!(map.revealed_tiles[idx_near]);
    // move the player mentally: recompute from a corner, old frame
    // visibility is reset but revelation is permanent
    if let Some(v) = &mut w.viewshed[p] {
        v.dirty = true;
    }
    w.position[p] = Some(rustmud::components::Position { x: 5, y: 5 });
    visibility_system::run(&mut map, &mut w);
    let idx_far = map.xy_idx(14, 12);
    assert!(!map.visible_tiles[idx_far] || map.revealed_tiles[idx_far]);
    assert!(map.revealed_tiles[idx_near]);
}
