//! Spawning the level's actors: the player with its standard stat block,
//! and a goblin or an orc per room as the dice decide.

use vstd::prelude::*;

use crate::components::{CombatStats, Position, Viewshed};
use crate::world::World;

verus! {

/// Spawn the player at the given position: 30 health, defense 2, power 5,
/// sight range 8, viewshed dirty so the first pass computes it.
pub fn spawn_player(world: &mut World, x: i32, y: i32) -> (id: usize)
    requires
        old(world).wf(),
    ensures
        final(world).wf(),
        id == old(world).num(),
        final(world).num() == old(world).num() + 1,
        forall|e: int| 0 <= e < old(world).num() ==> #[trigger] final(world).alive@[e] == old(world).alive@[e] && final(world).player@[e] == old(world).player@[e] && final(world).monster@[e] == old(world).monster@[e] && final(world).blocks_tile@[e] == old(world).blocks_tile@[e] && final(world).position@[e] == old(world).position@[e] && final(world).viewshed@[e] == old(world).viewshed@[e] && final(world).combat_stats@[e] == old(world).combat_stats@[e] && final(world).wants_to_melee@[e] == old(world).wants_to_melee@[e]
            && final(world).suffer_damage@[e] == old(world).suffer_damage@[e] && final(world).name@[e] == old(world).name@[e],
        final(world).alive@[id as int],
        final(world).player@[id as int],
        !final(world).monster@[id as int],
        !final(world).blocks_tile@[id as int],
        final(world).position@[id as int] == Option::Some(Position { x, y }),
        final(world).viewshed@[id as int] is Some,
        final(world).viewshed@[id as int]->Some_0.range == 8,
        final(world).viewshed@[id as int]->Some_0.dirty,
        final(world).viewshed@[id as int]->Some_0.visible_tiles@.len() == 0,
        final(world).combat_stats@[id as int] == Option::Some(
            CombatStats { max_hp: 30, hp: 30, defense: 2, power: 5 },
        ),
        final(world).wants_to_melee@[id as int] is None,
        final(world).suffer_damage@[id as int] is None,
        (forall|e: int| 0 <= e < old(world).num() ==> !(#[trigger] old(world).player@[e]))
            ==> final(world).at_most_one_player(),
{
    let id = world.add_entity();
    world.player[id] = true;
    world.position[id] = Option::Some(Position { x, y });
    world.viewshed[id] = Option::Some(
        Viewshed { visible_tiles: Vec::new(), range: 8, dirty: true },
    );
    world.combat_stats[id] = Option::Some(
        CombatStats { max_hp: 30, hp: 30, defense: 2, power: 5 },
    );
    proof {
        lemma_spawn_wf(*old(world), *world, id as int);
    }
    id
}

/// Spawn a monster at the given position: a goblin (3 health, defense 1,
/// power 3) when `roll` is 1, else an orc (6 health, defense 2, power 3);
/// either blocks its tile and watches with range 8.
pub fn spawn_monster(world: &mut World, x: i32, y: i32, roll: i32) -> (id: usize)
    requires
        old(world).wf(),
    ensures
        final(world).wf(),
        id == old(world).num(),
        final(world).num() == old(world).num() + 1,
        forall|e: int| 0 <= e < old(world).num() ==> #[trigger] final(world).alive@[e] == old(world).alive@[e] && final(world).player@[e] == old(world).player@[e] && final(world).monster@[e] == old(world).monster@[e] && final(world).blocks_tile@[e] == old(world).blocks_tile@[e] && final(world).position@[e] == old(world).position@[e] && final(world).viewshed@[e] == old(world).viewshed@[e] && final(world).combat_stats@[e] == old(world).combat_stats@[e] && final(world).wants_to_melee@[e] == old(world).wants_to_melee@[e]
            && final(world).suffer_damage@[e] == old(world).suffer_damage@[e] && final(world).name@[e] == old(world).name@[e],
        final(world).alive@[id as int],
        !final(world).player@[id as int],
        final(world).monster@[id as int],
        final(world).blocks_tile@[id as int],
        final(world).position@[id as int] == Option::Some(Position { x, y }),
        final(world).viewshed@[id as int] is Some,
        final(world).viewshed@[id as int]->Some_0.range == 8,
        final(world).viewshed@[id as int]->Some_0.dirty,
        final(world).combat_stats@[id as int] == Option::Some(
            if roll == 1 {
                CombatStats { max_hp: 3, hp: 3, defense: 1, power: 3 }
            } else {
                CombatStats { max_hp: 6, hp: 6, defense: 2, power: 3 }
            },
        ),
        final(world).wants_to_melee@[id as int] is None,
        final(world).suffer_damage@[id as int] is None,
        old(world).at_most_one_player() ==> final(world).at_most_one_player(),
{
    let id = world.add_entity();
    world.monster[id] = true;
    world.blocks_tile[id] = true;
    world.position[id] = Option::Some(Position { x, y });
    world.viewshed[id] = Option::Some(
        Viewshed { visible_tiles: Vec::new(), range: 8, dirty: true },
    );
    let stats = if roll == 1 {
        CombatStats { max_hp: 3, hp: 3, defense: 1, power: 3 }
    } else {
        CombatStats { max_hp: 6, hp: 6, defense: 2, power: 3 }
    };
    world.combat_stats[id] = Option::Some(stats);
    proof {
        lemma_spawn_wf(*old(world), *world, id as int);
        if old(world).at_most_one_player() {
            assert forall|i: int, j: int|
                0 <= i < world.num() && 0 <= j < world.num() && #[trigger] world.player@[i]
                    && #[trigger] world.player@[j] implies i == j by {
                assert(i < old(world).num() && j < old(world).num());
                assert(old(world).player@[i] && old(world).player@[j]);
            }
        }
    }
    id
}

/// A freshly filled row on top of a well-formed store keeps it well-formed,
/// as long as the new row's stats are well-formed, its viewshed range is in
/// range, and it holds no intent and no pending damage.
pub proof fn lemma_spawn_wf(w0: World, w1: World, id: int)
    requires
        w0.wf(),
        w1.num() == w0.num() + 1,
        id == w0.num(),
        w1.player@.len() == w1.num(),
        w1.monster@.len() == w1.num(),
        w1.blocks_tile@.len() == w1.num(),
        w1.position@.len() == w1.num(),
        w1.viewshed@.len() == w1.num(),
        w1.combat_stats@.len() == w1.num(),
        w1.wants_to_melee@.len() == w1.num(),
        w1.suffer_damage@.len() == w1.num(),
        w1.name@.len() == w1.num(),
        forall|e: int|
            0 <= e < w0.num() ==> #[trigger] w1.combat_stats@[e] == w0.combat_stats@[e]
                && w1.wants_to_melee@[e] == w0.wants_to_melee@[e] && w1.suffer_damage@[e]
                == w0.suffer_damage@[e] && w1.viewshed@[e] == w0.viewshed@[e],
        w1.combat_stats@[id] is Some ==> w1.combat_stats@[id]->Some_0.wf(),
        w1.wants_to_melee@[id] is None,
        w1.suffer_damage@[id] is None,
        w1.viewshed@[id] is Some ==> 0 <= w1.viewshed@[id]->Some_0.range <= 4096,
    ensures
        w1.wf(),
{
    assert forall|e: int, k: int|
        0 <= e < w1.num() && 0 <= k < w1.pending_damage(e).len() implies #[trigger] w1.pending_damage(
        e,
    )[k] >= 0 by {
        if e < w0.num() {
            assert(w1.combat_stats@[e] == w0.combat_stats@[e]);
            assert(w1.suffer_damage@[e] == w0.suffer_damage@[e]);
            assert(w1.pending_damage(e) == w0.pending_damage(e));
        } else {
            assert(w1.pending_damage(e).len() == 0);
        }
    }
    assert forall|e: int|
        0 <= e < w1.num() && w1.combat_stats@[e] is Some implies (
    #[trigger] w1.combat_stats@[e])->Some_0.wf() by {
        if e < w0.num() {
            assert(w1.combat_stats@[e] == w0.combat_stats@[e]);
        }
    }
    assert forall|e: int|
        0 <= e < w1.num() && w1.wants_to_melee@[e] is Some implies 0 <= (
    #[trigger] w1.wants_to_melee@[e])->Some_0.target < w1.num() by {
        if e < w0.num() {
            assert(w1.combat_stats@[e] == w0.combat_stats@[e]);
            assert(w1.wants_to_melee@[e] == w0.wants_to_melee@[e]);
        }
    }
    assert forall|e: int|
        0 <= e < w1.num() && w1.viewshed@[e] is Some implies 0 <= (
    #[trigger] w1.viewshed@[e])->Some_0.range <= 4096 by {
        if e < w0.num() {
            assert(w1.combat_stats@[e] == w0.combat_stats@[e]);
            assert(w1.viewshed@[e] == w0.viewshed@[e]);
        }
    }
}

} // verus!
