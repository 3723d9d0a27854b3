//! The damage applicator: sum each actor's pending damage, subtract it from
//! its health clamped at zero, and clear the pending list. A separate pass
//! removes dead non-player actors and surfaces player death.

use vstd::prelude::*;

use crate::world::World;

verus! {

pub open spec fn sum_of(s: Seq<i32>) -> int
    decreases s.len(),
{
    if s.len() == 0 {
        0
    } else {
        sum_of(s.drop_last()) + s.last()
    }
}

pub open spec fn clamp0(x: int) -> int {
    if x < 0 {
        0
    } else {
        x
    }
}

/// A sum of non-negative entries is non-negative.
pub proof fn lemma_sum_nonneg(s: Seq<i32>)
    requires
        forall|k: int| 0 <= k < s.len() ==> #[trigger] s[k] >= 0,
    ensures
        sum_of(s) >= 0,
    decreases s.len(),
{
    if s.len() > 0 {
        lemma_sum_nonneg(s.drop_last());
    }
}

/// Health after applying the pending damage of actor `e`.
pub open spec fn hp_after(w: World, e: int) -> int {
    clamp0(w.combat_stats@[e]->Some_0.hp - sum_of(w.pending_damage(e)))
}

/// Apply all pending damage: every actor with combat stats ends with
/// `hp == max(0, hp - total pending)`, never above its old value and never
/// below zero nor above `max_hp`; every pending list is cleared; nothing
/// else changes.
#[verifier::rlimit(60)]
pub fn run(world: &mut World)
    requires
        old(world).wf(),
    ensures
        final(world).wf(),
        final(world).num() == old(world).num(),
        final(world).alive@ == old(world).alive@,
        final(world).player@ == old(world).player@,
        final(world).monster@ == old(world).monster@,
        final(world).blocks_tile@ == old(world).blocks_tile@,
        final(world).position@ == old(world).position@,
        final(world).viewshed@ == old(world).viewshed@,
        final(world).wants_to_melee@ == old(world).wants_to_melee@,
        final(world).name@ == old(world).name@,
        forall|e: int| 0 <= e < final(world).num() ==> final(world).suffer_damage@[e] is None,
        forall|e: int|
            0 <= e < final(world).num() ==> final(world).combat_stats@[e] is Some == old(world).combat_stats@[e] is Some,
        forall|e: int|
            0 <= e < final(world).num() && old(world).combat_stats@[e] is Some
                ==> (#[trigger] final(world).combat_stats@[e])->Some_0 == (crate::components::CombatStats {
                hp: hp_after(*old(world), e) as i32,
                ..old(world).combat_stats@[e]->Some_0
            }),
        forall|e: int|
            0 <= e < final(world).num() && old(world).combat_stats@[e] is Some ==> 0 <= (
            #[trigger] final(world).combat_stats@[e])->Some_0.hp <= final(world).combat_stats@[e]->Some_0.max_hp,
{
    let n = world.len();
    let mut e: usize = 0;
    while e < n
        invariant
            world.wf(),
            old(world).wf(),
            n == world.num(),
            n == old(world).num(),
            e <= n,
            world.alive@ == old(world).alive@,
            world.player@ == old(world).player@,
            world.monster@ == old(world).monster@,
            world.blocks_tile@ == old(world).blocks_tile@,
            world.position@ == old(world).position@,
            world.viewshed@ == old(world).viewshed@,
            world.wants_to_melee@ == old(world).wants_to_melee@,
            world.name@ == old(world).name@,
            forall|e2: int| 0 <= e2 < e ==> world.suffer_damage@[e2] is None,
            forall|e2: int|
                e <= e2 < n ==> world.suffer_damage@[e2] == old(world).suffer_damage@[e2],
            forall|e2: int|
                0 <= e2 < n ==> world.combat_stats@[e2] is Some == old(world).combat_stats@[e2] is Some,
            forall|e2: int|
                e <= e2 < n ==> world.combat_stats@[e2] == old(world).combat_stats@[e2],
            forall|e2: int|
                0 <= e2 < e && old(world).combat_stats@[e2] is Some
                    ==> (#[trigger] world.combat_stats@[e2])->Some_0 == (crate::components::CombatStats {
                    hp: hp_after(*old(world), e2) as i32,
                    ..old(world).combat_stats@[e2]->Some_0
                }),
        decreases n - e,
    {
        let stats = world.combat_stats[e];
        if stats.is_some() {
            let cs = stats.unwrap();
            let mut hp = cs.hp;
            let ghost pend = world.pending_damage(e as int);
            let pend_len = match &world.suffer_damage[e] {
                Option::Some(s) => s.amount.len(),
                Option::None => 0,
            };
            let mut k: usize = 0;
            while k < pend_len
                invariant
                    world.wf(),
                    0 <= e < n,
                    n == world.num(),
                    k <= pend_len,
                    pend == world.pending_damage(e as int),
                    pend_len == pend.len(),
                    cs == world.combat_stats@[e as int]->Some_0,
                    hp == clamp0(cs.hp - sum_of(pend.subrange(0, k as int))),
                decreases pend_len - k,
            {
                let a = match &world.suffer_damage[e] {
                    Option::Some(s) => s.amount[k],
                    Option::None => 0,
                };
                proof {
                    assert(a == pend[k as int]);
                    assert(a >= 0);
                    assert(pend.subrange(0, k + 1).drop_last() =~= pend.subrange(0, k as int));
                    assert(pend.subrange(0, k + 1).last() == pend[k as int]);
                }
                hp = if a > hp {
                    0
                } else {
                    hp - a
                };
                k = k + 1;
            }
            proof {
                assert(pend.subrange(0, pend.len() as int) =~= pend);
            }
            world.combat_stats[e] = Option::Some(
                crate::components::CombatStats {
                    max_hp: cs.max_hp,
                    hp,
                    defense: cs.defense,
                    power: cs.power,
                },
            );
        }
        world.suffer_damage[e] = Option::None;
        e = e + 1;
        proof {
            assert forall|e2: int, k2: int|
                0 <= e2 < world.num() && 0 <= k2 < world.pending_damage(e2).len() implies
                #[trigger] world.pending_damage(e2)[k2] >= 0 by {
                if e2 >= e {
                    assert(world.pending_damage(e2) == old(world).pending_damage(e2));
                } else {
                    assert(world.suffer_damage@[e2] is None);
                }
            }
            assert forall|e2: int|
                0 <= e2 < world.num() && world.combat_stats@[e2] is Some implies (
            #[trigger] world.combat_stats@[e2])->Some_0.wf() by {
                if e2 == e - 1 && old(world).combat_stats@[e2] is Some {
                    lemma_sum_nonneg(old(world).pending_damage(e2));
                }
            }
        }
    }
}

/// An alive player with combat stats and no health left.
pub open spec fn player_dead_at(w: World, e: int) -> bool {
    &&& 0 <= e < w.num()
    &&& w.alive@[e]
    &&& w.player@[e]
    &&& w.combat_stats@[e] is Some
    &&& w.combat_stats@[e]->Some_0.hp == 0
}

/// Remove every dead non-player actor from the store, clearing its whole
/// row; the player is never removed, and the result says whether the player
/// is dead, for the orchestrator to surface.
pub fn delete_the_dead(world: &mut World) -> (player_died: bool)
    requires
        old(world).wf(),
    ensures
        final(world).wf(),
        final(world).num() == old(world).num(),
        player_died == exists|e: int| player_dead_at(*old(world), e),
        forall|e: int|
            0 <= e < final(world).num() ==> #[trigger] final(world).alive@[e] == (old(world).alive@[e] && !(old(world).combat_stats@[e] is Some
                && old(world).combat_stats@[e]->Some_0.hp == 0 && !old(world).player@[e])),
        forall|e: int| 0 <= e < final(world).num() ==> #[trigger] final(world).player@[e] == old(world).player@[e],
        forall|e: int|
            0 <= e < final(world).num() ==> #[trigger] final(world).monster@[e] == (if old(world).alive@[e] && !final(world).alive@[e] {
                false
            } else {
                old(world).monster@[e]
            }),
        forall|e: int|
            0 <= e < final(world).num() ==> #[trigger] final(world).blocks_tile@[e] == (if old(world).alive@[e] && !final(world).alive@[e] {
                false
            } else {
                old(world).blocks_tile@[e]
            }),
        forall|e: int|
            0 <= e < final(world).num() ==> #[trigger] final(world).position@[e] == (if old(world).alive@[e] && !final(world).alive@[e] {
                Option::None
            } else {
                old(world).position@[e]
            }),
        forall|e: int|
            0 <= e < final(world).num() ==> #[trigger] final(world).viewshed@[e] == (if old(world).alive@[e] && !final(world).alive@[e] {
                Option::None
            } else {
                old(world).viewshed@[e]
            }),
        forall|e: int|
            0 <= e < final(world).num() ==> #[trigger] final(world).combat_stats@[e] == (if old(world).alive@[e] && !final(world).alive@[e] {
                Option::None
            } else {
                old(world).combat_stats@[e]
            }),
        forall|e: int|
            0 <= e < final(world).num() ==> #[trigger] final(world).wants_to_melee@[e] == (if old(world).alive@[e] && !final(world).alive@[e] {
                Option::None
            } else {
                old(world).wants_to_melee@[e]
            }),
        forall|e: int|
            0 <= e < final(world).num() ==> #[trigger] final(world).suffer_damage@[e] == (if old(world).alive@[e] && !final(world).alive@[e] {
                Option::None
            } else {
                old(world).suffer_damage@[e]
            }),
        forall|e: int|
            0 <= e < final(world).num() ==> #[trigger] final(world).name@[e] == (if old(world).alive@[e] && !final(world).alive@[e] {
                Option::None
            } else {
                old(world).name@[e]
            }),
{
    let n = world.len();
    let mut player_died = false;
    let mut e: usize = 0;
    while e < n
        invariant
            world.wf(),
            old(world).wf(),
            n == world.num(),
            n == old(world).num(),
            e <= n,
            player_died == exists|e2: int| e2 < e && player_dead_at(*old(world), e2),
            forall|e2: int|
                e <= e2 < n ==> #[trigger] world.alive@[e2] == old(world).alive@[e2],
            forall|e2: int|
                e <= e2 < n ==> #[trigger] world.position@[e2] == old(world).position@[e2],
            forall|e2: int|
                e <= e2 < n ==> #[trigger] world.viewshed@[e2] == old(world).viewshed@[e2],
            forall|e2: int|
                e <= e2 < n ==> #[trigger] world.combat_stats@[e2] == old(world).combat_stats@[e2],
            forall|e2: int|
                e <= e2 < n ==> #[trigger] world.wants_to_melee@[e2] == old(world).wants_to_melee@[e2],
            forall|e2: int|
                e <= e2 < n ==> #[trigger] world.suffer_damage@[e2] == old(world).suffer_damage@[e2],
            forall|e2: int| e <= e2 < n ==> #[trigger] world.name@[e2] == old(world).name@[e2],
            forall|e2: int|
                e <= e2 < n ==> #[trigger] world.monster@[e2] == old(world).monster@[e2],
            forall|e2: int|
                e <= e2 < n ==> #[trigger] world.blocks_tile@[e2] == old(world).blocks_tile@[e2],
            forall|e2: int| 0 <= e2 < n ==> #[trigger] world.player@[e2] == old(world).player@[e2],
            forall|e2: int|
                0 <= e2 < e ==> #[trigger] world.alive@[e2] == (old(world).alive@[e2] && !(old(world).combat_stats@[e2] is Some && old(world).combat_stats@[e2]->Some_0.hp == 0 && !old(world).player@[e2])),
            forall|e2: int|
                0 <= e2 < e ==> #[trigger] world.monster@[e2] == (if old(world).alive@[e2]
                    && !world.alive@[e2] {
                    false
                } else {
                    old(world).monster@[e2]
                }),
            forall|e2: int|
                0 <= e2 < e ==> #[trigger] world.blocks_tile@[e2] == (if old(world).alive@[e2]
                    && !world.alive@[e2] {
                    false
                } else {
                    old(world).blocks_tile@[e2]
                }),
            forall|e2: int|
                0 <= e2 < e ==> #[trigger] world.position@[e2] == (if old(world).alive@[e2]
                    && !world.alive@[e2] {
                    Option::None
                } else {
                    old(world).position@[e2]
                }),
            forall|e2: int|
                0 <= e2 < e ==> #[trigger] world.viewshed@[e2] == (if old(world).alive@[e2]
                    && !world.alive@[e2] {
                    Option::None
                } else {
                    old(world).viewshed@[e2]
                }),
            forall|e2: int|
                0 <= e2 < e ==> #[trigger] world.combat_stats@[e2] == (if old(world).alive@[e2]
                    && !world.alive@[e2] {
                    Option::None
                } else {
                    old(world).combat_stats@[e2]
                }),
            forall|e2: int|
                0 <= e2 < e ==> #[trigger] world.wants_to_melee@[e2] == (if old(world).alive@[e2]
                    && !world.alive@[e2] {
                    Option::None
                } else {
                    old(world).wants_to_melee@[e2]
                }),
            forall|e2: int|
                0 <= e2 < e ==> #[trigger] world.suffer_damage@[e2] == (if old(world).alive@[e2]
                    && !world.alive@[e2] {
                    Option::None
                } else {
                    old(world).suffer_damage@[e2]
                }),
            forall|e2: int|
                0 <= e2 < e ==> #[trigger] world.name@[e2] == (if old(world).alive@[e2]
                    && !world.alive@[e2] {
                    Option::None
                } else {
                    old(world).name@[e2]
                }),
        decreases n - e,
    {
        let stats = world.combat_stats[e];
        let ghost w_pre = *world;
        if world.alive[e] && stats.is_some() && stats.unwrap().hp == 0 {
            if world.player[e] {
                player_died = true;
                proof {
                    assert(player_dead_at(*old(world), e as int));
                }
            } else {
                proof {
                    assert(!player_dead_at(*old(world), e as int));
                }
                world.alive[e] = false;
                world.monster[e] = false;
                world.blocks_tile[e] = false;
                world.position[e] = Option::None;
                world.viewshed[e] = Option::None;
                world.combat_stats[e] = Option::None;
                world.wants_to_melee[e] = Option::None;
                world.suffer_damage[e] = Option::None;
                world.name[e] = Option::None;
                proof {
                    assert forall|e2: int, k: int|
                        0 <= e2 < world.num() && 0 <= k < world.pending_damage(e2).len() implies
                        #[trigger] world.pending_damage(e2)[k] >= 0 by {
                        if e2 != e {
                            assert(world.pending_damage(e2) == w_pre.pending_damage(e2));
                        }
                    }
                }
            }
        } else {
            proof {
                assert(!player_dead_at(*old(world), e as int));
            }
        }
        e = e + 1;
    }
    player_died
}

} // verus!
