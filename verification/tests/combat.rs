use rustmud::components::WantsToMelee;
use rustmud::damage_system;
use rustmud::melee_combat_system;
use rustmud::spawner::{spawn_monster, spawn_player};
use rustmud::world::World;

fn pending(world: &World, e: usize) -> Vec<i32> {
    match &world.suffer_damage[e] {
        Some(s) => s.amount.clone(),
        None => Vec::new(),
    }
}

#[test]
fn damage_floor_holds_when_defense_exceeds_power() {
    let mut w = World::new();
    // goblin attacker: power 3; orc defender: defense 2 -> would be 1 anyway;
    // put a strong defender instead: the player has defense 2, so craft a
    // weak attacker against a tough defender through stats directly
    let attacker = spawn_monster(&mut w, 1, 1, 1);
    let defender = spawn_player(&mut w, 2, 1);
    // weaken the attacker below the defender's defense
    if let Some(cs) = &mut w.combat_stats[attacker] {
        cs.power = 1;
    }
    if let Some(cs) = &mut w.combat_stats[defender] {
        cs.defense = 10;
    }
    w.wants_to_melee[attacker] = Some(WantsToMelee { target: defender });
    melee_combat_system::run(&mut w);
    assert_eq!(pending(&w, defender), vec![1]);
    assert!(w.wants_to_melee[attacker].is_none());
}

#[test]
fn simultaneous_attacks_accumulate_in_actor_order() {
    let mut w = World::new();
    let a1 = spawn_monster(&mut w, 1, 1, 1); // goblin power 3
    let a2 = spawn_monster(&mut w, 3, 1, 2); // orc power 3
    let target = spawn_player(&mut w, 2, 1); // defense 2
    w.wants_to_melee[a1] = Some(WantsToMelee { target });
    w.wants_to_melee[a2] = Some(WantsToMelee { target });
    melee_combat_system::run(&mut w);
    assert_eq!(pending(&w, target), vec![1, 1]);
}

#[test]
fn damage_clamps_at_zero_and_never_exceeds_max() {
    let mut w = World::new();
    let p = spawn_player(&mut w, 1, 1); // 30 hp
    w.suffer_damage[p] = Some(rustmud::components::SufferDamage { amount: vec![10, 50] });
    damage_system::run(&mut w);
    let cs = w.combat_stats[p].unwrap();
    assert_eq!(cs.hp, 0);
    assert_eq!(cs.max_hp, 30);
    assert!(w.suffer_damage[p].is_none());

    let mut w2 = World::new();
    let q = spawn_player(&mut w2, 1, 1);
    w2.suffer_damage[q] = Some(rustmud::components::SufferDamage { amount: vec![4] });
    damage_system::run(&mut w2);
    let cs2 = w2.combat_stats[q].unwrap();
    assert_eq!(cs2.hp, 26);
    assert!(cs2.hp >= 0 && cs2.hp <= cs2.max_hp);
}

#[test]
fn missing_stats_pairings_are_skipped() {
    let mut w = World::new();
    let a = spawn_monster(&mut w, 1, 1, 1);
    let t = spawn_player(&mut w, 2, 1);
    w.combat_stats[a] = None; // attacker lost its stats
    w.wants_to_melee[a] = Some(WantsToMelee { target: t });
    melee_combat_system::run(&mut w);
    assert!(pending(&w, t).is_empty());
    assert!(w.wants_to_melee[a].is_none());
}

#[test]
fn player_attack_resolves_in_two_rounds_and_corpse_is_removed() {
    // player power 5, defense 2 attacks an orc with hp 6, max 6, defense 2:
    // each resolved attack deals max(1, 5-2) = 3
    let mut w = World::new();
    let p = spawn_player(&mut w, 1, 1);
    let m = spawn_monster(&mut w, 2, 1, 2); // orc: 6/6/2/3
    w.wants_to_melee[p] = Some(WantsToMelee { target: m });
    melee_combat_system::run(&mut w);
    assert_eq!(pending(&w, m), vec![3]);
    damage_system::run(&mut w);
    assert_eq!(w.combat_stats[m].unwrap().hp, 3);
    let died = damage_system::delete_the_dead(&mut w);
    assert!(!died);
    assert!(w.alive[m]);

    w.wants_to_melee[p] = Some(WantsToMelee { target: m });
    melee_combat_system::run(&mut w);
    damage_system::run(&mut w);
    assert_eq!(w.combat_stats[m].unwrap().hp, 0);
    let died2 = damage_system::delete_the_dead(&mut w);
    assert!(!died2);
    assert!(!w.alive[m]);
    assert!(w.combat_stats[m].is_none());
    assert!(w.position[m].is_none());
    // the player is never removed by the pass
    assert!(w.alive[p]);
}

#[test]
fn dead_player_is_surfaced_not_removed() {
    let mut w = World::new();
    let p = spawn_player(&mut w, 1, 1);
    w.suffer_damage[p] = Some(rustmud::components::SufferDamage { amount: vec![99] });
    damage_system::run(&mut w);
    let died = damage_system::delete_the_dead(&mut w);
    assert!(died);
    assert!(w.alive[p]);
}
