//! Resolving a decided player movement: a bump into an actor with combat
//! stats becomes a melee intent, a step onto an open tile moves the player
//! and dirties its viewshed, and anything else is ignored.

use vstd::prelude::*;

use crate::components::{Position, WantsToMelee};
use crate::map::GameMap;
use crate::monster_ai_system::is_live_player;
use crate::visibility_system::positions_in_bounds;
use crate::world::World;

verus! {

/// Occupant `k` of tile `idx` is a valid actor with combat stats: a bump
/// into it becomes an attack.
pub open spec fn attackable(m: GameMap, w: World, idx: int, k: int) -> bool {
    &&& (m.tile_content@[idx]@[k] as int) < w.num()
    &&& w.combat_stats@[m.tile_content@[idx]@[k] as int] is Some
}

/// What one resolved player move does to the store `w0`, leaving `w1`:
/// only the player's row changes, and it changes exactly as the bump /
/// step / stay case analysis says.
pub open spec fn move_outcome(m: GameMap, w0: World, w1: World, delta_x: int, delta_y: int) -> bool {
    &&& (w1.alive@ == w0.alive@)
    &&& (w1.player@ == w0.player@)
    &&& (w1.monster@ == w0.monster@)
    &&& (w1.blocks_tile@ == w0.blocks_tile@)
    &&& (w1.combat_stats@ == w0.combat_stats@)
    &&& (w1.suffer_damage@ == w0.suffer_damage@)
    &&& (w1.name@ == w0.name@)
    &&& (forall|e: int|
            0 <= e < w1.num() && !is_live_player(w0, e)
                ==> #[trigger] w1.position@[e] == w0.position@[e] && w1.viewshed@[e] == w0.viewshed@[e] && w1.wants_to_melee@[e] == w0.wants_to_melee@[e])
    &&& (forall|e: int|
            #![trigger is_live_player(w0, e)]
            is_live_player(w0, e) ==> ({
                let px = w0.position@[e]->Some_0.x as int;
                let py = w0.position@[e]->Some_0.y as int;
                let dx2 = px + delta_x;
                let dy2 = py + delta_y;
                let di = m.idx_of(dx2, dy2);
                if !m.in_bounds(dx2, dy2) {
                    w1.position@[e] == w0.position@[e] && w1.viewshed@[e] == w0.viewshed@[e] && w1.wants_to_melee@[e]
                        == w0.wants_to_melee@[e]
                } else if exists|k: int|
                    0 <= k < m.tile_content@[di]@.len() && attackable(m, w0, di, k) {
                    w1.position@[e] == w0.position@[e] && w1.viewshed@[e] == w0.viewshed@[e] && (exists|k: int|
                        0 <= k < m.tile_content@[di]@.len() && #[trigger] attackable(
                            m,
                            w0,
                            di,
                            k,
                        ) && (forall|j: int| 0 <= j < k ==> !attackable(m, w0, di, j))
                            && w1.wants_to_melee@[e] == (Option::Some(
                            WantsToMelee { target: m.tile_content@[di]@[k] },
                        )))
                } else if !m.blocked@[di] {
                    w1.position@[e] == (Option::Some(
                        Position { x: (px + delta_x) as i32, y: (py + delta_y) as i32 },
                    )) && w1.wants_to_melee@[e] == w0.wants_to_melee@[e] && (
                    w1.viewshed@[e] is Some == w0.viewshed@[e] is Some) && (w0.viewshed@[e] is Some ==> w1.viewshed@[e]->Some_0.visible_tiles
                        == w0.viewshed@[e]->Some_0.visible_tiles && w1.viewshed@[e]->Some_0.range == w0.viewshed@[e]->Some_0.range && w1.viewshed@[e]->Some_0.dirty)
                } else {
                    w1.position@[e] == w0.position@[e] && w1.viewshed@[e] == w0.viewshed@[e] && w1.wants_to_melee@[e]
                        == w0.wants_to_melee@[e]
                }
            }))
}

/// Apply a move-by-delta for the player: attack the first actor with combat
/// stats standing on the destination tile, else step there when it is not
/// blocked, else do nothing. Touches only the player's own row.
#[verifier::rlimit(60)]
pub fn try_move_player(delta_x: i32, delta_y: i32, map: &GameMap, world: &mut World)
    requires
        map.wf(),
        old(world).wf(),
        old(world).at_most_one_player(),
        positions_in_bounds(*old(world), *map),
        -1 <= delta_x <= 1,
        -1 <= delta_y <= 1,
    ensures
        final(world).wf(),
        final(world).at_most_one_player(),
        positions_in_bounds(*final(world), *map),
        move_outcome(*map, *old(world), *final(world), delta_x as int, delta_y as int),
{
    let p_opt = crate::monster_ai_system::find_player(world);
    if p_opt.is_none() {
        return ;
    }
    let p = p_opt.unwrap();
    let pos = world.position[p].unwrap();
    let dest_x = pos.x + delta_x;
    let dest_y = pos.y + delta_y;
    if dest_x < 0 || dest_x >= map.width || dest_y < 0 || dest_y >= map.height {
        return ;
    }
    let idx = map.xy_idx(dest_x, dest_y);
    let ghost w0 = *world;
    // a bump into something that can fight is an attack
    let occupants = map.tile_content[idx].len();
    let mut k: usize = 0;
    while k < occupants
        invariant
            map.wf(),
            world.wf(),
            *world == w0,
            w0 == *old(world),
            w0.wf(),
            old(world).at_most_one_player(),
            positions_in_bounds(*old(world), *map),
            idx < map.tile_content@.len(),
            occupants == map.tile_content@[idx as int]@.len(),
            k <= occupants,
            0 <= p < world.num(),
            is_live_player(*old(world), p as int),
            pos == old(world).position@[p as int]->Some_0,
            idx == map.idx_of(pos.x + delta_x, pos.y + delta_y),
            map.in_bounds(pos.x + delta_x, pos.y + delta_y),
            forall|j: int| 0 <= j < k ==> !attackable(*map, *old(world), idx as int, j),
        decreases occupants - k,
    {
        let target = map.tile_content[idx][k];
        if target < world.len() && world.combat_stats[target].is_some() {
            world.wants_to_melee[p] = Option::Some(WantsToMelee { target });
            proof {
                assert(attackable(*map, *old(world), idx as int, k as int));
                assert(world.position@ == w0.position@);
                assert(world.viewshed@ == w0.viewshed@);
                assert forall|e2: int, k2: int|
                    0 <= e2 < world.num() && 0 <= k2 < world.pending_damage(e2).len() implies
                    #[trigger] world.pending_damage(e2)[k2] >= 0 by {
                    assert(world.pending_damage(e2) == w0.pending_damage(e2));
                }
                assert forall|i: int, j: int|
                    0 <= i < world.num() && 0 <= j < world.num() && #[trigger] world.player@[i]
                        && #[trigger] world.player@[j] implies i == j by {
                    assert(old(world).player@[i] && old(world).player@[j]);
                }
                assert forall|e2: int|
                    0 <= e2 < world.num() && world.alive@[e2]
                        && #[trigger] world.position@[e2] is Some implies map.in_bounds(
                    world.position@[e2]->Some_0.x as int,
                    world.position@[e2]->Some_0.y as int,
                ) by {
                    assert(world.position@[e2] == old(world).position@[e2]);
                    assert(positions_in_bounds(*old(world), *map));
                }
            }
            return ;
        }
        proof {
            assert(!attackable(*map, *old(world), idx as int, k as int));
        }
        k = k + 1;
    }
    proof {
        assert forall|k2: int|
            0 <= k2 < map.tile_content@[idx as int]@.len() implies !attackable(
            *map,
            *old(world),
            idx as int,
            k2,
        ) by {}
    }
    if !map.blocked[idx] {
        world.position[p] = Option::Some(Position { x: dest_x, y: dest_y });
        match &mut world.viewshed[p] {
            Option::Some(v) => {
                v.dirty = true;
            },
            Option::None => {},
        }
        proof {
            assert(world.position@[p as int] == Option::Some(
                Position { x: dest_x, y: dest_y },
            ));
            assert forall|e2: int, k2: int|
                0 <= e2 < world.num() && 0 <= k2 < world.pending_damage(e2).len() implies
                #[trigger] world.pending_damage(e2)[k2] >= 0 by {
                assert(world.pending_damage(e2) == w0.pending_damage(e2));
            }
            assert forall|e2: int|
                0 <= e2 < world.num() && #[trigger] world.viewshed@[e2] is Some implies 0
                <= world.viewshed@[e2]->Some_0.range <= 4096 by {
                if world.viewshed@[e2] == w0.viewshed@[e2] {
                } else {
                    assert(w0.viewshed@[e2] is Some);
                    assert(world.viewshed@[e2]->Some_0.range == w0.viewshed@[e2]->Some_0.range);
                }
            }
            assert forall|e2: int|
                0 <= e2 < world.num() && world.alive@[e2]
                    && #[trigger] world.position@[e2] is Some implies map.in_bounds(
                world.position@[e2]->Some_0.x as int,
                world.position@[e2]->Some_0.y as int,
            ) by {
                if world.position@[e2] == w0.position@[e2] {
                    assert(positions_in_bounds(w0, *map));
                }
            }
            assert forall|i: int, j: int|
                0 <= i < world.num() && 0 <= j < world.num() && #[trigger] world.player@[i]
                    && #[trigger] world.player@[j] implies i == j by {
                assert(old(world).player@[i] && old(world).player@[j]);
            }
        }
    }
}

} // verus!
