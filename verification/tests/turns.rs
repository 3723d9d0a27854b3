use rustmud::components::Point;
use rustmud::map::GameMap;
use rustmud::map_builders::{MapBuilder, SimpleMapBuilder};
use rustmud::monster_ai_system;
use rustmud::rect::Rect;
use rustmud::spawner::{spawn_monster, spawn_player};
use rustmud::visibility_system;
use rustmud::world::World;
use rustmud::{PlayerIntent, RunState, State};

fn open_room_state(px: i32, py: i32) -> (GameMap, World) {
    let mut map = GameMap::new(1);
    let room = Rect::new(2, 2, 20, 20);
    map.apply_room_to_map(&room);
    map.populate_blocked();
    map.rooms = vec![room];
    let mut w = World::new();
    spawn_player(&mut w, px, py);
    (map, w)
}

fn cheb(ax: i32, ay: i32, bx: i32, by: i32) -> i32 {
    (ax - bx).abs().max((ay - by).abs())
}

#[test]
fn one_room_prerun_reaches_awaiting_input_quietly() {
    let mut builder = SimpleMapBuilder::new(11);
    let (map, start) = builder.build_map(11);
    let mut w = World::new();
    let p = spawn_player(&mut w, start.x, start.y);
    let mut state = State { map, ecs: w, runstate: RunState::PreRun, player_dead: false };
    state.tick(PlayerIntent::Idle);
    assert_eq!(state.runstate, RunState::AwaitingInput);
    assert!(!state.player_dead);
    // no damage recorded, no deaths
    for e in 0..state.ecs.alive.len() {
        assert!(state.ecs.suffer_damage[e].is_none());
    }
    assert!(state.ecs.alive[p]);
    assert_eq!(state.ecs.combat_stats[p].unwrap().hp, 30);
}

#[test]
fn state_machine_cycles_as_specified() {
    let mut builder = SimpleMapBuilder::new(12);
    let (map, start) = builder.build_map(12);
    let mut w = World::new();
    spawn_player(&mut w, start.x, start.y);
    let mut state = State { map, ecs: w, runstate: RunState::PreRun, player_dead: false };
    state.tick(PlayerIntent::Idle);
    assert_eq!(state.runstate, RunState::AwaitingInput);
    state.tick(PlayerIntent::Idle);
    assert_eq!(state.runstate, RunState::AwaitingInput);
    state.tick(PlayerIntent::Wait);
    assert_eq!(state.runstate, RunState::PlayerTurn);
    state.tick(PlayerIntent::Idle);
    assert_eq!(state.runstate, RunState::MonsterTurn);
    state.tick(PlayerIntent::Idle);
    assert_eq!(state.runstate, RunState::AwaitingInput);
}

#[test]
fn aggroed_distant_monster_steps_closer_without_attacking() {
    let (mut map, mut w) = open_room_state(6, 6);
    let m = spawn_monster(&mut w, 12, 6, 2);
    // compute viewsheds: the monster sees the player across the open room
    visibility_system::run(&mut map, &mut w);
    assert!(w.viewshed[m]
        .as_ref()
        .unwrap()
        .visible_tiles
        .contains(&Point { x: 6, y: 6 }));
    let before = cheb(12, 6, 6, 6);
    monster_ai_system::run(&map, &mut w);
    let pos = w.position[m].unwrap();
    let after = cheb(pos.x, pos.y, 6, 6);
    assert!(after < before);
    assert!(w.wants_to_melee[m].is_none());
    assert!(w.viewshed[m].as_ref().unwrap().dirty);
}

#[test]
fn adjacent_monster_declares_melee_instead_of_moving() {
    let (mut map, mut w) = open_room_state(6, 6);
    let m = spawn_monster(&mut w, 7, 6, 1);
    visibility_system::run(&mut map, &mut w);
    monster_ai_system::run(&map, &mut w);
    let pos = w.position[m].unwrap();
    assert_eq!((pos.x, pos.y), (7, 6));
    assert_eq!(w.wants_to_melee[m].unwrap().target, 0);
}

#[test]
fn unaware_monster_does_nothing() {
    // two sealed rooms: the monster cannot see the player
    let mut map = GameMap::new(1);
    let room_a = Rect::new(2, 2, 8, 8);
    let room_b = Rect::new(30, 2, 8, 8);
    map.apply_room_to_map(&room_a);
    map.apply_room_to_map(&room_b);
    map.populate_blocked();
    map.rooms = vec![room_a, room_b];
    let mut w = World::new();
    spawn_player(&mut w, 5, 5);
    let m = spawn_monster(&mut w, 33, 5, 1);
    visibility_system::run(&mut map, &mut w);
    assert!(!w.viewshed[m]
        .as_ref()
        .unwrap()
        .visible_tiles
        .contains(&Point { x: 5, y: 5 }));
    monster_ai_system::run(&map, &mut w);
    let pos = w.position[m].unwrap();
    assert_eq!((pos.x, pos.y), (33, 5));
    assert!(w.wants_to_melee[m].is_none());
}

#[test]
fn bump_into_monster_becomes_melee_intent() {
    let (mut map, mut w) = open_room_state(6, 6);
    let m = spawn_monster(&mut w, 7, 6, 1);
    // index occupancy so the destination tile lists the monster
    rustmud::map_indexing_system::run(&mut map, &w);
    rustmud::player::try_move_player(1, 0, &map, &mut w);
    assert_eq!(w.wants_to_melee[0].unwrap().target, m);
    // and the player did not move
    let pos = w.position[0].unwrap();
    assert_eq!((pos.x, pos.y), (6, 6));
}

#[test]
fn player_moves_onto_open_tile_and_viewshed_dirties() {
    let (mut map, mut w) = open_room_state(6, 6);
    rustmud::map_indexing_system::run(&mut map, &w);
    visibility_system::run(&mut map, &mut w);
    rustmud::map_indexing_system::run(&mut map, &w);
    assert!(!w.viewshed[0].as_ref().unwrap().dirty);
    rustmud::player::try_move_player(1, 0, &map, &mut w);
    let pos = w.position[0].unwrap();
    assert_eq!((pos.x, pos.y), (7, 6));
    assert!(w.viewshed[0].as_ref().unwrap().dirty);
}

#[test]
fn dead_player_freezes_the_simulation() {
    let mut builder = SimpleMapBuilder::new(13);
    let (map, start) = builder.build_map(13);
    let mut w = World::new();
    let p = spawn_player(&mut w, start.x, start.y);
    w.suffer_damage[p] = Some(rustmud::components::SufferDamage { amount: vec![99] });
    let mut state = State { map, ecs: w, runstate: RunState::PreRun, player_dead: false };
    state.tick(PlayerIntent::Idle);
    assert!(state.player_dead);
    let frozen = state.runstate;
    state.tick(PlayerIntent::Wait);
    assert_eq!(state.runstate, frozen);
}
