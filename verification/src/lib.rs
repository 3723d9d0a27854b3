//! Core of a turn-based dungeon-crawl simulation: dungeon generation,
//! visibility, monster behaviour, melee combat, damage application, and the
//! per-turn state machine that sequences them.

use vstd::prelude::*;

pub mod components;
pub mod damage_system;
pub mod map;
pub mod map_builders;
pub mod map_indexing_system;
pub mod melee_combat_system;
pub mod monster_ai_system;
pub mod player;
pub mod reach;
pub mod rect;
pub mod rng;
pub mod spawner;
pub mod visibility_system;
pub mod world;

use crate::map::{GameMap, TileType};
use crate::world::World;

verus! {

#[derive(PartialEq, Eq, Structural, Copy, Clone, Debug)]
pub enum RunState {
    AwaitingInput,
    PreRun,
    PlayerTurn,
    MonsterTurn,
}

/// The externally decided player action for one tick: nothing actionable,
/// an explicit wait, or a move by one tile in each axis.
#[derive(PartialEq, Eq, Structural, Copy, Clone, Debug)]
pub enum PlayerIntent {
    Idle,
    Wait,
    Move { dx: i32, dy: i32 },
}

/// Where the state machine goes from `rs` on intent `intent`.
pub open spec fn next_run_state(rs: RunState, intent: PlayerIntent) -> RunState {
    match rs {
        RunState::PreRun => RunState::AwaitingInput,
        RunState::AwaitingInput => match intent {
            PlayerIntent::Idle => RunState::AwaitingInput,
            PlayerIntent::Wait => RunState::PlayerTurn,
            PlayerIntent::Move { .. } => RunState::PlayerTurn,
        },
        RunState::PlayerTurn => RunState::MonsterTurn,
        RunState::MonsterTurn => RunState::AwaitingInput,
    }
}

/// What one full pipeline run does, whatever the intermediate order: the
/// terrain and rooms are untouched; every intent and every pending-damage
/// list has been resolved and cleared; nobody's health rose or changed
/// shape, and an actor nobody targeted with no pending damage keeps its
/// stats exactly; the player and every statless actor survive, only
/// non-player actors with stats are ever removed, and the dead are gone;
/// the player tag column is untouched and the other tags and the name are
/// cleared exactly for the removed; non-monsters, the player included,
/// never move; reveal memory only grows; and player death is surfaced
/// exactly when a live player stands at zero health.
pub open spec fn pipeline_outcome(s0: State, s1: State) -> bool {
    &&& s1.map.width == s0.map.width
    &&& s1.map.height == s0.map.height
    &&& s1.map.depth == s0.map.depth
    &&& s1.map.tiles == s0.map.tiles
    &&& s1.map.rooms == s0.map.rooms
    &&& s1.ecs.num() == s0.ecs.num()
    &&& forall|e: int| 0 <= e < s1.ecs.num() ==> (#[trigger] s1.ecs.wants_to_melee@[e]) is None
    &&& forall|e: int| 0 <= e < s1.ecs.num() ==> (#[trigger] s1.ecs.suffer_damage@[e]) is None
    &&& forall|e: int| 0 <= e < s1.ecs.num() && #[trigger] s1.ecs.alive@[e] ==> s0.ecs.alive@[e]
    &&& forall|e: int|
        0 <= e < s1.ecs.num() && s1.ecs.alive@[e] && (#[trigger] s1.ecs.combat_stats@[e]) is Some
            && s1.ecs.combat_stats@[e]->Some_0.hp == 0 ==> s1.ecs.player@[e]
    &&& forall|e: int|
        0 <= e < s1.ecs.num() && s1.ecs.alive@[e] && (#[trigger] s0.ecs.combat_stats@[e]) is Some
            ==> s1.ecs.combat_stats@[e] is Some && s1.ecs.combat_stats@[e]->Some_0.hp
            <= s0.ecs.combat_stats@[e]->Some_0.hp && s1.ecs.combat_stats@[e]->Some_0.max_hp
            == s0.ecs.combat_stats@[e]->Some_0.max_hp && s1.ecs.combat_stats@[e]->Some_0.defense
            == s0.ecs.combat_stats@[e]->Some_0.defense && s1.ecs.combat_stats@[e]->Some_0.power
            == s0.ecs.combat_stats@[e]->Some_0.power
    &&& forall|idx: int|
        0 <= idx < s1.map.count() && #[trigger] s0.map.revealed_tiles@[idx]
            ==> s1.map.revealed_tiles@[idx]
    &&& forall|e: int|
        0 <= e < s1.ecs.num() && crate::visibility_system::recomputes(s0.ecs, e)
            && s0.ecs.player@[e] && s1.ecs.alive@[e] ==> (#[trigger] s1.ecs.viewshed@[e]) is Some
            && !s1.ecs.viewshed@[e]->Some_0.dirty && s1.ecs.viewshed@[e]->Some_0.range
            == s0.ecs.viewshed@[e]->Some_0.range && s1.ecs.viewshed@[e]->Some_0.visible_tiles@
            == crate::visibility_system::vis_seq(
            s0.map,
            (s0.ecs.position@[e]->Some_0.x as int, s0.ecs.position@[e]->Some_0.y as int),
            s0.ecs.viewshed@[e]->Some_0.range as int,
            (s0.map.width * s0.map.height) as nat,
        )
    &&& forall|e: int|
        #![trigger s0.ecs.player@[e], s1.ecs.viewshed@[e]]
        0 <= e < s1.ecs.num() && crate::visibility_system::recomputes(s0.ecs, e)
            && s0.ecs.player@[e] && s1.ecs.alive@[e] ==> (forall|idx: int|
            0 <= idx < s1.map.count() ==> #[trigger] s1.map.visible_tiles@[idx]
                == crate::visibility_system::list_covers(
                s0.map,
                s1.ecs.viewshed@[e]->Some_0.visible_tiles@,
                idx,
            ))
    &&& forall|idx: int, e: usize|
        0 <= idx < s1.map.count() && #[trigger] s1.map.tile_content@[idx]@.contains(e) ==> (
        e as int) < s1.ecs.num() && (!s1.ecs.alive@[e as int] || (s1.ecs.position@[e as int] is Some
            && s1.map.idx_of(
            s1.ecs.position@[e as int]->Some_0.x as int,
            s1.ecs.position@[e as int]->Some_0.y as int,
        ) == idx))
    &&& forall|e: usize|
        #![trigger s1.ecs.position@[e as int]]
        (e as int) < s1.ecs.num() && s1.ecs.alive@[e as int] && s1.ecs.position@[e as int] is Some
            ==> s1.map.tile_content@[s1.map.idx_of(
            s1.ecs.position@[e as int]->Some_0.x as int,
            s1.ecs.position@[e as int]->Some_0.y as int,
        )]@.contains(e)
    &&& forall|e: int|
        0 <= e < s1.ecs.num() && s0.ecs.alive@[e] && (s0.ecs.player@[e]
            || s0.ecs.combat_stats@[e] is None) ==> #[trigger] s1.ecs.alive@[e]
    &&& forall|e: int|
        0 <= e < s1.ecs.num() && s0.ecs.alive@[e] && !(#[trigger] s1.ecs.alive@[e])
            ==> !s0.ecs.player@[e] && s0.ecs.combat_stats@[e] is Some
    &&& s1.ecs.player@ == s0.ecs.player@
    &&& forall|e: int|
        0 <= e < s1.ecs.num() ==> #[trigger] s1.ecs.monster@[e] == (if s0.ecs.alive@[e]
            && !s1.ecs.alive@[e] {
            false
        } else {
            s0.ecs.monster@[e]
        })
    &&& forall|e: int|
        0 <= e < s1.ecs.num() ==> #[trigger] s1.ecs.blocks_tile@[e] == (if s0.ecs.alive@[e]
            && !s1.ecs.alive@[e] {
            false
        } else {
            s0.ecs.blocks_tile@[e]
        })
    &&& forall|e: int|
        0 <= e < s1.ecs.num() ==> #[trigger] s1.ecs.name@[e] == (if s0.ecs.alive@[e]
            && !s1.ecs.alive@[e] {
            Option::None
        } else {
            s0.ecs.name@[e]
        })
    &&& forall|e: int|
        0 <= e < s1.ecs.num() && s0.ecs.alive@[e] && !(#[trigger] s1.ecs.alive@[e])
            ==> s1.ecs.position@[e] is None && s1.ecs.viewshed@[e] is None
            && s1.ecs.combat_stats@[e] is None
    &&& forall|e: int|
        0 <= e < s1.ecs.num() && s1.ecs.alive@[e] && !s0.ecs.monster@[e]
            ==> #[trigger] s1.ecs.position@[e] == s0.ecs.position@[e]
    &&& forall|e: int|
        0 <= e < s1.ecs.num() && s1.ecs.alive@[e] && s0.ecs.player@[e]
            ==> #[trigger] s1.ecs.position@[e] == s0.ecs.position@[e]
    &&& forall|e: int|
        #![trigger s1.ecs.combat_stats@[e], s0.ecs.suffer_damage@[e]]
        0 <= e < s1.ecs.num() && s1.ecs.alive@[e] && !s0.ecs.player@[e]
            && s0.ecs.combat_stats@[e] is Some && s0.ecs.suffer_damage@[e] is None && (forall|
            a: int,
        |
            0 <= a < s0.ecs.num() ==> !((#[trigger] s0.ecs.wants_to_melee@[a]) is Some
                && s0.ecs.wants_to_melee@[a]->Some_0.target == e))
            ==> s1.ecs.combat_stats@[e] == s0.ecs.combat_stats@[e]
    &&& s1.player_dead == (s0.player_dead || exists|e: int|
        crate::damage_system::player_dead_at(s1.ecs, e))
}

/// The whole simulation: the level, the actor store, the state machine
/// position, and the surfaced player-death condition.
pub struct State {
    pub map: GameMap,
    pub ecs: World,
    pub runstate: RunState,
    pub player_dead: bool,
}

impl State {
    /// Everything the pipeline relies on between ticks: well-formed map and
    /// store, a unique player, every actor in bounds, and walls blocked.
    pub open spec fn wf(self) -> bool {
        &&& self.map.wf()
        &&& self.ecs.wf()
        &&& self.ecs.at_most_one_player()
        &&& crate::visibility_system::positions_in_bounds(self.ecs, self.map)
        &&& forall|idx: int|
            0 <= idx < self.map.count() && self.map.tiles@[idx] == TileType::Wall
                ==> #[trigger] self.map.blocked@[idx]
    }

    /// One full pipeline run in the fixed order: visibility, monster
    /// behaviour, occupancy indexing, combat resolution, damage
    /// application, then the deferred removal of the dead. A dead player is
    /// surfaced in `player_dead` and never removed from the store.
    #[verifier::rlimit(100)]
    #[verifier::spinoff_prover]
    pub fn run_systems(&mut self)
        requires
            old(self).wf(),
        ensures
            final(self).wf(),
            final(self).runstate == old(self).runstate,
            final(self).map.width == old(self).map.width,
            final(self).map.height == old(self).map.height,
            final(self).map.depth == old(self).map.depth,
            final(self).map.tiles == old(self).map.tiles,
            final(self).map.rooms == old(self).map.rooms,
            final(self).ecs.num() == old(self).ecs.num(),
            old(self).player_dead ==> final(self).player_dead,
            pipeline_outcome(*old(self), *final(self)),
    {
        let ghost s0 = *self;
        crate::visibility_system::run(&mut self.map, &mut self.ecs);
        let ghost s_vis = *self;
        proof {
            lemma_shape_preserved(old(self).ecs, self.ecs, old(self).map, self.map);
        }
        crate::monster_ai_system::run(&self.map, &mut self.ecs);
        crate::map_indexing_system::run(&mut self.map, &self.ecs);
        let ghost s_idx = *self;
        crate::melee_combat_system::run(&mut self.ecs);
        let ghost s_mel = *self;
        proof {
            lemma_shape_preserved(s_idx.ecs, self.ecs, s_idx.map, self.map);
        }
        crate::damage_system::run(&mut self.ecs);
        let ghost s_dmg = *self;
        proof {
            lemma_shape_preserved(s_idx.ecs, self.ecs, s_idx.map, self.map);
        }
        let died = crate::damage_system::delete_the_dead(&mut self.ecs);
        if died {
            self.player_dead = true;
        }
        proof {
            // intents and pending lists are resolved and cleared
            assert forall|e: int|
                0 <= e < self.ecs.num() implies (#[trigger] self.ecs.wants_to_melee@[e]) is None
                && (#[trigger] self.ecs.suffer_damage@[e]) is None by {
                assert(s_mel.ecs.wants_to_melee@[e] is None);
                assert(s_dmg.ecs.wants_to_melee@[e] is None);
                assert(s_dmg.ecs.suffer_damage@[e] is None);
            }
            // nobody rises from the dead, and dead non-players are gone
            assert forall|e: int|
                0 <= e < self.ecs.num() && #[trigger] self.ecs.alive@[e] implies s0.ecs.alive@[e]
                && (self.ecs.combat_stats@[e] is Some && self.ecs.combat_stats@[e]->Some_0.hp == 0
                    ==> self.ecs.player@[e]) by {
                assert(s_dmg.ecs.alive@[e]);
                assert(s_idx.ecs.alive@[e] == s0.ecs.alive@[e]);
                assert(self.ecs.combat_stats@[e] == s_dmg.ecs.combat_stats@[e]);
                assert(self.ecs.player@[e] == s_dmg.ecs.player@[e]);
            }
            // health never rises and stats keep their shape
            assert forall|e: int|
                0 <= e < self.ecs.num() && self.ecs.alive@[e]
                    && (#[trigger] s0.ecs.combat_stats@[e]) is Some implies self.ecs.combat_stats@[e] is Some
                && self.ecs.combat_stats@[e]->Some_0.hp <= s0.ecs.combat_stats@[e]->Some_0.hp
                && self.ecs.combat_stats@[e]->Some_0.max_hp
                    == s0.ecs.combat_stats@[e]->Some_0.max_hp
                && self.ecs.combat_stats@[e]->Some_0.defense
                    == s0.ecs.combat_stats@[e]->Some_0.defense
                && self.ecs.combat_stats@[e]->Some_0.power
                    == s0.ecs.combat_stats@[e]->Some_0.power by {
                assert(s_mel.ecs.combat_stats@[e] == s0.ecs.combat_stats@[e]);
                assert(self.ecs.combat_stats@[e] == s_dmg.ecs.combat_stats@[e]);
                crate::damage_system::lemma_sum_nonneg(s_mel.ecs.pending_damage(e));
            }
            // reveal memory only grows
            assert forall|idx: int|
                0 <= idx < self.map.count() && #[trigger] s0.map.revealed_tiles@[idx] implies
                self.map.revealed_tiles@[idx] by {
                if !(forall|e2: int|
                    !(crate::visibility_system::recomputes(s0.ecs, e2) && s0.ecs.player@[e2])) {
                    let e2 = choose|e2: int|
                        crate::visibility_system::recomputes(s0.ecs, e2) && s0.ecs.player@[e2];
                    assert(s_vis.map.revealed_tiles@[idx] == (s0.map.revealed_tiles@[idx]
                        || crate::visibility_system::list_covers(
                        s0.map,
                        s_vis.ecs.viewshed@[e2]->Some_0.visible_tiles@,
                        idx,
                    )));
                }
                assert(self.map.revealed_tiles == s_vis.map.revealed_tiles);
            }
            // the player's recomputed viewshed survives the later passes
            assert forall|e: int|
                0 <= e < self.ecs.num() && crate::visibility_system::recomputes(s0.ecs, e)
                    && s0.ecs.player@[e] && self.ecs.alive@[e] implies (
            #[trigger] self.ecs.viewshed@[e]) is Some && !self.ecs.viewshed@[e]->Some_0.dirty
                && self.ecs.viewshed@[e]->Some_0.range == s0.ecs.viewshed@[e]->Some_0.range
                && self.ecs.viewshed@[e]->Some_0.visible_tiles@
                == crate::visibility_system::vis_seq(
                s0.map,
                (s0.ecs.position@[e]->Some_0.x as int, s0.ecs.position@[e]->Some_0.y as int),
                s0.ecs.viewshed@[e]->Some_0.range as int,
                (s0.map.width * s0.map.height) as nat,
            ) by {
                assert(s_vis.ecs.viewshed@[e] is Some && !s_vis.ecs.viewshed@[e]->Some_0.dirty);
                assert(crate::monster_ai_system::is_live_player(s_vis.ecs, e));
                assert(!crate::monster_ai_system::ai_chases(s_vis.ecs, e, e));
                assert(s_idx.ecs.viewshed@[e] == s_vis.ecs.viewshed@[e]);
                assert(s_dmg.ecs.viewshed@[e] == s_idx.ecs.viewshed@[e]);
                assert(self.ecs.viewshed@[e] == s_dmg.ecs.viewshed@[e]);
            }
            // the frame visibility is exactly what the player's recomputed
            // viewshed covers
            assert forall|e: int|
                0 <= e < self.ecs.num() && crate::visibility_system::recomputes(s0.ecs, e)
                    && s0.ecs.player@[e] && self.ecs.alive@[e] implies (forall|idx: int|
                0 <= idx < self.map.count() ==> #[trigger] self.map.visible_tiles@[idx]
                    == crate::visibility_system::list_covers(
                    s0.map,
                    self.ecs.viewshed@[e]->Some_0.visible_tiles@,
                    idx,
                )) by {
                assert(s_vis.ecs.viewshed@[e] is Some);
                assert(crate::monster_ai_system::is_live_player(s_vis.ecs, e));
                assert(!crate::monster_ai_system::ai_chases(s_vis.ecs, e, e));
                assert(s_idx.ecs.viewshed@[e] == s_vis.ecs.viewshed@[e]);
                assert(s_dmg.ecs.viewshed@[e] == s_idx.ecs.viewshed@[e]);
                assert(self.ecs.viewshed@[e] == s_dmg.ecs.viewshed@[e]);
                assert(self.map.visible_tiles == s_idx.map.visible_tiles);
                assert(s_idx.map.visible_tiles == s_vis.map.visible_tiles);
                assert forall|idx: int| 0 <= idx < self.map.count() implies #[trigger] self.map.visible_tiles@[idx]
                    == crate::visibility_system::list_covers(
                    s0.map,
                    self.ecs.viewshed@[e]->Some_0.visible_tiles@,
                    idx,
                ) by {
                    assert(s_vis.map.visible_tiles@[idx] == crate::visibility_system::list_covers(
                        s0.map,
                        s_vis.ecs.viewshed@[e]->Some_0.visible_tiles@,
                        idx,
                    ));
                }
            }
            // the occupancy index matches the surviving actors' positions
            assert forall|idx: int, e: usize|
                0 <= idx < self.map.count() && #[trigger] self.map.tile_content@[idx]@.contains(
                    e,
                ) implies (e as int) < self.ecs.num() && (!self.ecs.alive@[e as int] || (
            self.ecs.position@[e as int] is Some && self.map.idx_of(
                self.ecs.position@[e as int]->Some_0.x as int,
                self.ecs.position@[e as int]->Some_0.y as int,
            ) == idx)) by {
                assert(self.map.tile_content == s_idx.map.tile_content);
                assert(s_idx.map.tile_content@[idx]@.contains(e));
                assert(crate::map_indexing_system::occupant_at(
                    s_idx.ecs,
                    s_idx.map,
                    e as int,
                    idx,
                ));
                if self.ecs.alive@[e as int] {
                    assert(s_dmg.ecs.alive@[e as int]);
                    assert(self.ecs.position@[e as int] == s_dmg.ecs.position@[e as int]);
                    assert(s_dmg.ecs.position@[e as int] == s_idx.ecs.position@[e as int]);
                }
            }
            assert forall|e: usize|
                #![trigger self.ecs.position@[e as int]]
                (e as int) < self.ecs.num() && self.ecs.alive@[e as int]
                    && self.ecs.position@[e as int] is Some implies self.map.tile_content@[self.map.idx_of(
                self.ecs.position@[e as int]->Some_0.x as int,
                self.ecs.position@[e as int]->Some_0.y as int,
            )]@.contains(e) by {
                assert(s_dmg.ecs.alive@[e as int]);
                assert(self.ecs.position@[e as int] == s_dmg.ecs.position@[e as int]);
                assert(s_dmg.ecs.position@[e as int] == s_idx.ecs.position@[e as int]);
                let px = self.ecs.position@[e as int]->Some_0.x as int;
                let py = self.ecs.position@[e as int]->Some_0.y as int;
                assert(self.map.in_bounds(px, py));
                crate::map::lemma_idx_bounds(self.map.width as int, self.map.height as int, px, py);
                assert(0 <= self.map.idx_of(px, py) < self.map.count());
                assert(crate::map_indexing_system::occupant_at(
                    s_idx.ecs,
                    s_idx.map,
                    e as int,
                    self.map.idx_of(px, py),
                ));
                assert(s_idx.map.tile_content@[s_idx.map.idx_of(px, py)]@.contains(e));
            }
            // columns only the removal pass changes, chained to the start
            assert(s_dmg.ecs.alive@ == s0.ecs.alive@);
            assert(s_dmg.ecs.player@ == s0.ecs.player@);
            assert(s_dmg.ecs.monster@ == s0.ecs.monster@);
            assert(s_dmg.ecs.blocks_tile@ == s0.ecs.blocks_tile@);
            assert(s_dmg.ecs.name@ == s0.ecs.name@);
            assert(s_mel.ecs.combat_stats@ == s0.ecs.combat_stats@);
            assert(s_idx.ecs.suffer_damage@ == s0.ecs.suffer_damage@);
            // the player and every statless actor survive; only non-player
            // actors with stats are removed
            assert forall|e: int|
                0 <= e < self.ecs.num() && s0.ecs.alive@[e] && (s0.ecs.player@[e]
                    || s0.ecs.combat_stats@[e] is None) implies #[trigger] self.ecs.alive@[e] by {
                assert(s_dmg.ecs.combat_stats@[e] is Some == s_mel.ecs.combat_stats@[e] is Some);
            }
            assert forall|e: int|
                0 <= e < self.ecs.num() && s0.ecs.alive@[e] && !(#[trigger] self.ecs.alive@[e])
                    implies !s0.ecs.player@[e] && s0.ecs.combat_stats@[e] is Some by {
                assert(s_dmg.ecs.combat_stats@[e] is Some == s_mel.ecs.combat_stats@[e] is Some);
            }
            // tag and name columns
            assert forall|e: int|
                0 <= e < self.ecs.num() implies #[trigger] self.ecs.player@[e]
                == s0.ecs.player@[e] by {}
            assert(self.ecs.player@ =~= s0.ecs.player@);
            assert forall|e: int|
                0 <= e < self.ecs.num() implies #[trigger] self.ecs.monster@[e] == (
            if s0.ecs.alive@[e] && !self.ecs.alive@[e] {
                false
            } else {
                s0.ecs.monster@[e]
            }) && self.ecs.blocks_tile@[e] == (if s0.ecs.alive@[e] && !self.ecs.alive@[e] {
                false
            } else {
                s0.ecs.blocks_tile@[e]
            }) && self.ecs.name@[e] == (if s0.ecs.alive@[e] && !self.ecs.alive@[e] {
                Option::None
            } else {
                s0.ecs.name@[e]
            }) by {}
            // non-monsters, the player included, never move
            assert forall|e: int|
                0 <= e < self.ecs.num() && self.ecs.alive@[e] && (!s0.ecs.monster@[e]
                    || s0.ecs.player@[e]) implies #[trigger] self.ecs.position@[e]
                == s0.ecs.position@[e] by {
                assert(s_vis.ecs.monster@[e] == s0.ecs.monster@[e]);
                assert(s_vis.ecs.player@[e] == s0.ecs.player@[e]);
                if forall|p2: int| !crate::monster_ai_system::is_live_player(s_vis.ecs, p2) {
                    assert(s_idx.ecs.position@ == s_vis.ecs.position@);
                } else {
                    let p2 = choose|p2: int|
                        crate::monster_ai_system::is_live_player(s_vis.ecs, p2);
                    assert(!crate::monster_ai_system::ai_chases(s_vis.ecs, e, p2)) by {
                        if s0.ecs.player@[e] && crate::monster_ai_system::acts(s_vis.ecs, e, p2) {
                            assert(s_vis.ecs.player@[p2] && s_vis.ecs.player@[e]);
                            assert(e == p2);
                        }
                    }
                    assert(s_idx.ecs.position@[e] == s_vis.ecs.position@[e]);
                }
                assert(s_vis.ecs.position@[e] == s0.ecs.position@[e]);
                assert(s_dmg.ecs.position@[e] == s_idx.ecs.position@[e]);
            }
            // an actor nobody targeted, with nothing pending, keeps its stats
            assert forall|e: int|
                #![trigger self.ecs.combat_stats@[e], s0.ecs.suffer_damage@[e]]
                0 <= e < self.ecs.num() && self.ecs.alive@[e] && !s0.ecs.player@[e]
                    && s0.ecs.combat_stats@[e] is Some && s0.ecs.suffer_damage@[e] is None && (
                forall|a: int|
                    0 <= a < s0.ecs.num() ==> !((#[trigger] s0.ecs.wants_to_melee@[a]) is Some
                        && s0.ecs.wants_to_melee@[a]->Some_0.target == e)) implies
                self.ecs.combat_stats@[e] == s0.ecs.combat_stats@[e] by {
                assert(s_vis.ecs.wants_to_melee@ == s0.ecs.wants_to_melee@);
                assert forall|a: int|
                    0 <= a < s_idx.ecs.num() implies !((
                #[trigger] s_idx.ecs.wants_to_melee@[a]) is Some
                    && s_idx.ecs.wants_to_melee@[a]->Some_0.target == e) by {
                    if forall|p2: int| !crate::monster_ai_system::is_live_player(s_vis.ecs, p2) {
                        assert(s_idx.ecs.wants_to_melee@ == s_vis.ecs.wants_to_melee@);
                    } else {
                        let p2 = choose|p2: int|
                            crate::monster_ai_system::is_live_player(s_vis.ecs, p2);
                        if crate::monster_ai_system::ai_stands(s_vis.ecs, a, p2) {
                            assert(s_idx.ecs.wants_to_melee@[a] == (Option::Some(
                                crate::components::WantsToMelee { target: p2 as usize },
                            )));
                            vstd::std_specs::vec::axiom_spec_len(&s_vis.ecs.alive);
                            assert(0 <= p2 < s_vis.ecs.num());
                            assert((p2 as usize) as int == p2);
                            assert(s_vis.ecs.player@[p2] == s0.ecs.player@[p2]);
                            assert(p2 != e);
                        } else {
                            assert(s_idx.ecs.wants_to_melee@[a]
                                == s_vis.ecs.wants_to_melee@[a]);
                            assert(s_idx.ecs.wants_to_melee@[a] == s0.ecs.wants_to_melee@[a]);
                        }
                    }
                }
                crate::melee_combat_system::lemma_no_attackers(
                    s_idx.ecs,
                    e,
                    s_idx.ecs.num() as nat,
                );
                assert(s_mel.ecs.pending_damage(e) =~= Seq::<i32>::empty());
                assert(crate::damage_system::sum_of(s_mel.ecs.pending_damage(e)) == 0);
                assert(s_mel.ecs.combat_stats@[e] == s0.ecs.combat_stats@[e]);
                assert(s_mel.ecs.wf());
                assert(s_mel.ecs.combat_stats@[e]->Some_0.wf());
                assert(crate::damage_system::hp_after(s_mel.ecs, e)
                    == s_mel.ecs.combat_stats@[e]->Some_0.hp);
                assert(s_dmg.ecs.combat_stats@[e] == s_mel.ecs.combat_stats@[e]);
                assert(self.ecs.combat_stats@[e] == s_dmg.ecs.combat_stats@[e]);
            }
            // player death is surfaced exactly when a live player is at zero
            if died {
                let e = choose|e: int|
                    crate::damage_system::player_dead_at(s_dmg.ecs, e);
                assert(self.ecs.alive@[e]);
                assert(self.ecs.combat_stats@[e] == s_dmg.ecs.combat_stats@[e]);
                assert(self.ecs.player@[e] == s_dmg.ecs.player@[e]);
                assert(crate::damage_system::player_dead_at(self.ecs, e));
            } else {
                assert forall|e: int|
                    !crate::damage_system::player_dead_at(self.ecs, e) by {
                    if 0 <= e < self.ecs.num() && self.ecs.alive@[e] {
                        assert(s_dmg.ecs.alive@[e]);
                        assert(self.ecs.combat_stats@[e] == s_dmg.ecs.combat_stats@[e]);
                        assert(self.ecs.player@[e] == s_dmg.ecs.player@[e]);
                        assert(!crate::damage_system::player_dead_at(s_dmg.ecs, e));
                    }
                }
            }
            assert forall|i: int, j: int|
                0 <= i < self.ecs.num() && 0 <= j < self.ecs.num() && #[trigger] self.ecs.player@[i]
                    && #[trigger] self.ecs.player@[j] implies i == j by {
                assert(s_idx.ecs.player@[i] && s_idx.ecs.player@[j]);
            }
            assert forall|e2: int|
                0 <= e2 < self.ecs.num() && self.ecs.alive@[e2]
                    && #[trigger] self.ecs.position@[e2] is Some implies self.map.in_bounds(
                self.ecs.position@[e2]->Some_0.x as int,
                self.ecs.position@[e2]->Some_0.y as int,
            ) by {
                assert(s_idx.ecs.position@[e2] is Some && s_idx.ecs.alive@[e2]);
            }
        }
    }

    /// Advance one tick. Once the player is dead no further turn processing
    /// happens; otherwise the state machine follows `next_run_state`, a
    /// movement intent is resolved before the player turn runs, and the
    /// pipeline runs on `PreRun`, `PlayerTurn` and `MonsterTurn`.
    pub fn tick(&mut self, intent: PlayerIntent)
        requires
            old(self).wf(),
        ensures
            final(self).wf(),
            old(self).player_dead ==> *final(self) == *old(self),
            !old(self).player_dead ==> final(self).runstate == next_run_state(
                old(self).runstate,
                intent,
            ),
            old(self).player_dead ==> final(self).player_dead,
            !old(self).player_dead && old(self).runstate == RunState::AwaitingInput && intent
                == PlayerIntent::Idle ==> *final(self) == *old(self),
            !old(self).player_dead && old(self).runstate == RunState::AwaitingInput && intent
                == PlayerIntent::Wait ==> final(self).map == old(self).map && final(self).ecs
                == old(self).ecs && final(self).player_dead == old(self).player_dead,
            !old(self).player_dead && old(self).runstate == RunState::AwaitingInput ==> (
            intent matches PlayerIntent::Move { dx, dy } ==> final(self).map == old(self).map
                && final(self).player_dead == old(self).player_dead && (if -1 <= dx <= 1 && -1
                <= dy <= 1 {
                crate::player::move_outcome(
                    old(self).map,
                    old(self).ecs,
                    final(self).ecs,
                    dx as int,
                    dy as int,
                )
            } else {
                final(self).ecs == old(self).ecs
            })),
            !old(self).player_dead && old(self).runstate != RunState::AwaitingInput
                ==> pipeline_outcome(*old(self), *final(self)),
    {
        if self.player_dead {
            return ;
        }
        let rs = self.runstate;
        match rs {
            RunState::PreRun => {
                self.run_systems();
                self.runstate = RunState::AwaitingInput;
            },
            RunState::AwaitingInput => {
                match intent {
                    PlayerIntent::Idle => {},
                    PlayerIntent::Wait => {
                        self.runstate = RunState::PlayerTurn;
                    },
                    PlayerIntent::Move { dx, dy } => {
                        if -1 <= dx && dx <= 1 && -1 <= dy && dy <= 1 {
                            crate::player::try_move_player(dx, dy, &self.map, &mut self.ecs);
                        }
                        self.runstate = RunState::PlayerTurn;
                    },
                }
            },
            RunState::PlayerTurn => {
                self.run_systems();
                self.runstate = RunState::MonsterTurn;
            },
            RunState::MonsterTurn => {
                self.run_systems();
                self.runstate = RunState::AwaitingInput;
            },
        }
    }
}

/// The shape facts of `State::wf` that a pass touching neither the player
/// column nor any position keeps: player uniqueness and in-bounds
/// positions.
pub proof fn lemma_shape_preserved(w0: World, w1: World, m0: GameMap, m1: GameMap)
    requires
        w0.at_most_one_player(),
        crate::visibility_system::positions_in_bounds(w0, m0),
        w1.num() == w0.num(),
        w1.player@ == w0.player@,
        w1.alive@ == w0.alive@,
        w1.position@ == w0.position@,
        m1.width == m0.width,
        m1.height == m0.height,
    ensures
        w1.at_most_one_player(),
        crate::visibility_system::positions_in_bounds(w1, m1),
{
    assert forall|i: int, j: int|
        0 <= i < w1.num() && 0 <= j < w1.num() && #[trigger] w1.player@[i]
            && #[trigger] w1.player@[j] implies i == j by {
        assert(w0.player@[i] && w0.player@[j]);
    }
    assert forall|e2: int|
        0 <= e2 < w1.num() && w1.alive@[e2] && #[trigger] w1.position@[e2] is Some implies m1.in_bounds(
        w1.position@[e2]->Some_0.x as int,
        w1.position@[e2]->Some_0.y as int,
    ) by {
        assert(w0.position@[e2] is Some && w0.alive@[e2]);
        assert(crate::visibility_system::positions_in_bounds(w0, m0));
    }
}

} // verus!
