use rustmud::map::{GameMap, TileType, MAPHEIGHT, MAPWIDTH};
use rustmud::map_builders::{random_builder, MapBuilder, SimpleMapBuilder};
use rustmud::rect::Rect;
use rustmud::rng::Rng;

fn carved_cells(r: &Rect) -> Vec<(i32, i32)> {
    let mut v = Vec::new();
    for y in (r.y1 + 1)..=r.y2 {
        for x in (r.x1 + 1)..=r.x2 {
            v.push((x, y));
        }
    }
    v
}

#[test]
fn generated_rooms_lie_within_bounds() {
    let mut builder = random_builder(1);
    let (map, _start) = builder.build_map(1);
    assert!(map.rooms.len() >= 1);
    for r in map.rooms.iter() {
        assert!(r.x1 >= 0 && r.y1 >= 0);
        assert!(r.x2 <= map.width - 2);
        assert!(r.y2 <= map.height - 2);
    }
}

#[test]
fn generated_rooms_do_not_overlap() {
    let mut builder = random_builder(2);
    let (map, _start) = builder.build_map(2);
    for i in 0..map.rooms.len() {
        for j in (i + 1)..map.rooms.len() {
            assert!(!map.rooms[i].intersect(&map.rooms[j]));
            let a: Vec<(i32, i32)> = carved_cells(&map.rooms[i]);
            for c in carved_cells(&map.rooms[j]) {
                assert!(!a.contains(&c));
            }
        }
    }
}

#[test]
fn generated_rooms_are_carved_to_floor() {
    let mut builder = random_builder(3);
    let (map, _start) = builder.build_map(3);
    for r in map.rooms.iter() {
        for (x, y) in carved_cells(r) {
            let idx = map.xy_idx(x, y);
            assert_eq!(map.tiles[idx], TileType::Floor);
        }
    }
}

#[test]
fn every_room_is_reachable_from_the_first() {
    let mut builder = random_builder(4);
    let (map, start) = builder.build_map(4);
    // flood fill over floor tiles with king moves
    let w = map.width as usize;
    let h = map.height as usize;
    let mut seen = vec![false; w * h];
    let start_idx = map.xy_idx(start.x, start.y);
    seen[start_idx] = true;
    let mut frontier = vec![start_idx];
    while let Some(u) = frontier.pop() {
        let ux = (u % w) as i32;
        let uy = (u / w) as i32;
        for dy in -1i32..=1 {
            for dx in -1i32..=1 {
                if dx == 0 && dy == 0 {
                    continue;
                }
                let vx = ux + dx;
                let vy = uy + dy;
                if vx < 0 || vx >= map.width || vy < 0 || vy >= map.height {
                    continue;
                }
                let vi = map.xy_idx(vx, vy);
                if !seen[vi] && map.tiles[vi] == TileType::Floor {
                    seen[vi] = true;
                    frontier.push(vi);
                }
            }
        }
    }
    for r in map.rooms.iter() {
        for (x, y) in carved_cells(r) {
            assert!(seen[map.xy_idx(x, y)]);
        }
    }
}

#[test]
fn player_start_is_first_room_center_on_floor() {
    let mut builder = random_builder(5);
    let (map, start) = builder.build_map(5);
    let c = map.rooms[0].center();
    assert_eq!((start.x, start.y), c);
    let idx = map.xy_idx(start.x, start.y);
    assert_eq!(map.tiles[idx], TileType::Floor);
}

#[test]
fn generation_is_deterministic_per_depth() {
    let mut b1 = SimpleMapBuilder::new(7);
    let mut b2 = SimpleMapBuilder::new(7);
    let (m1, s1) = b1.build_map(7);
    let (m2, s2) = b2.build_map(7);
    assert_eq!(m1.tiles, m2.tiles);
    assert_eq!((s1.x, s1.y), (s2.x, s2.y));
}

#[test]
fn fresh_map_is_all_walls() {
    let map = GameMap::new(1);
    assert_eq!(map.width, MAPWIDTH);
    assert_eq!(map.height, MAPHEIGHT);
    for t in map.tiles.iter() {
        assert_eq!(*t, TileType::Wall);
    }
}

#[test]
fn xy_idx_is_row_major() {
    let map = GameMap::new(1);
    assert_eq!(map.xy_idx(0, 0), 0);
    assert_eq!(map.xy_idx(5, 2), (2 * 80 + 5) as usize);
}

#[test]
fn rect_intersect_and_center() {
    let a = Rect::new(1, 1, 10, 10);
    let b = Rect::new(5, 5, 10, 10);
    let c = Rect::new(20, 20, 5, 5);
    assert!(a.intersect(&b));
    assert!(!a.intersect(&c));
    assert_eq!(a.center(), (6, 6));
}

#[test]
fn rng_is_deterministic_and_bounded() {
    let mut r1 = Rng::new(42);
    let mut r2 = Rng::new(42);
    for _ in 0..50 {
        let a = r1.range(3, 9);
        let b = r2.range(3, 9);
        assert_eq!(a, b);
        assert!(a >= 3 && a < 9);
    }
    let mut r3 = Rng::new(9);
    for _ in 0..50 {
        let d = r3.roll_dice(1, 6);
        assert!(d >= 1 && d <= 6);
    }
}
