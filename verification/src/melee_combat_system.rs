//! The combat resolver: every held melee intent becomes a pending damage
//! entry on its target, `max(1, attacker power - defender defense)` each,
//! accumulating in actor order; afterwards every intent is cleared.

use vstd::prelude::*;

use crate::components::SufferDamage;
use crate::world::World;

verus! {

/// Damage of one resolved attack: at least 1, whatever the stats.
pub open spec fn melee_damage(power: int, defense: int) -> int {
    if power - defense < 1 {
        1
    } else {
        power - defense
    }
}

/// Attacker `e` lands a hit on `t` this turn: it is alive, wants to melee
/// `t`, both sides have combat stats, and the target is alive. A pairing
/// with anything missing is skipped, not an error.
pub open spec fn attacker_hits(w: World, e: int, t: int) -> bool {
    &&& 0 <= e < w.num()
    &&& w.alive@[e]
    &&& w.wants_to_melee@[e] is Some
    &&& w.wants_to_melee@[e]->Some_0.target == t
    &&& w.combat_stats@[e] is Some
    &&& 0 <= t < w.num()
    &&& w.alive@[t]
    &&& w.combat_stats@[t] is Some
}

/// The damage entries appended to `t` by the attackers among the first `n`
/// actors, in actor order.
pub open spec fn attacks_on(w: World, t: int, n: nat) -> Seq<i32>
    decreases n,
{
    if n == 0 {
        Seq::empty()
    } else {
        let rest = attacks_on(w, t, (n - 1) as nat);
        if attacker_hits(w, (n - 1) as int, t) {
            rest.push(
                melee_damage(
                    w.combat_stats@[n - 1]->Some_0.power as int,
                    w.combat_stats@[t]->Some_0.defense as int,
                ) as i32,
            )
        } else {
            rest
        }
    }
}

/// One unfolding of `attacks_on`.
pub proof fn lemma_attacks_unfold(w: World, t: int, n: nat)
    requires
        n > 0,
    ensures
        attacks_on(w, t, n) == (if attacker_hits(w, (n - 1) as int, t) {
            attacks_on(w, t, (n - 1) as nat).push(
                melee_damage(
                    w.combat_stats@[n - 1]->Some_0.power as int,
                    w.combat_stats@[t]->Some_0.defense as int,
                ) as i32,
            )
        } else {
            attacks_on(w, t, (n - 1) as nat)
        }),
{
}

/// An actor nobody targets receives no damage entries at all.
pub proof fn lemma_no_attackers(w: World, t: int, n: nat)
    requires
        forall|a: int|
            0 <= a < n ==> !((#[trigger] w.wants_to_melee@[a]) is Some
                && w.wants_to_melee@[a]->Some_0.target == t),
    ensures
        attacks_on(w, t, n) == Seq::<i32>::empty(),
    decreases n,
{
    if n > 0 {
        lemma_no_attackers(w, t, (n - 1) as nat);
        assert(!attacker_hits(w, (n - 1) as int, t));
    }
}

/// Whatever the stats, every resolved attack deals at least 1 damage.
pub proof fn lemma_damage_floor(power: int, defense: int)
    ensures
        melee_damage(power, defense) >= 1,
{
}

/// Every pending entry the resolver appends is at least 1.
pub proof fn lemma_attacks_positive(w: World, t: int, n: nat)
    requires
        w.wf(),
    ensures
        forall|k: int| 0 <= k < attacks_on(w, t, n).len() ==> #[trigger] attacks_on(w, t, n)[k]
            >= 1,
    decreases n,
{
    if n > 0 {
        lemma_attacks_positive(w, t, (n - 1) as nat);
        let s0 = attacks_on(w, t, (n - 1) as nat);
        let s = attacks_on(w, t, n);
        if attacker_hits(w, (n - 1) as int, t) {
            assert(w.combat_stats@[n - 1]->Some_0.wf());
            assert(w.combat_stats@[t]->Some_0.wf());
            let d = melee_damage(
                w.combat_stats@[n - 1]->Some_0.power as int,
                w.combat_stats@[t]->Some_0.defense as int,
            );
            assert(1 <= d <= i32::MAX);
            assert(s == s0.push(d as i32));
            assert forall|k: int| 0 <= k < s.len() implies #[trigger] s[k] >= 1 by {
                if k < s0.len() {
                    assert(s[k] == s0[k]);
                } else {
                    assert(s[k] == d as i32);
                }
            }
        }
    }
}

/// Resolve every melee intent: append the damage to the target's pending
/// list, then clear every intent. Nothing else changes.
#[verifier::rlimit(60)]
pub fn run(world: &mut World)
    requires
        old(world).wf(),
    ensures
        final(world).wf(),
        final(world).num() == old(world).num(),
        final(world).alive@ == old(world).alive@,
        final(world).player@ == old(world).player@,
        final(world).monster@ == old(world).monster@,
        final(world).blocks_tile@ == old(world).blocks_tile@,
        final(world).position@ == old(world).position@,
        final(world).viewshed@ == old(world).viewshed@,
        final(world).combat_stats@ == old(world).combat_stats@,
        final(world).name@ == old(world).name@,
        forall|e: int| 0 <= e < final(world).num() ==> final(world).wants_to_melee@[e] is None,
        forall|t: int|
            0 <= t < final(world).num() ==> final(world).pending_damage(t) == old(
                world,
            ).pending_damage(t) + attacks_on(*old(world), t, old(world).num() as nat),
{
    let n = world.len();
    let mut e: usize = 0;
    while e < n
        invariant
            world.wf(),
            old(world).wf(),
            n == world.num(),
            n == old(world).num(),
            e <= n,
            world.alive@ == old(world).alive@,
            world.player@ == old(world).player@,
            world.monster@ == old(world).monster@,
            world.blocks_tile@ == old(world).blocks_tile@,
            world.position@ == old(world).position@,
            world.viewshed@ == old(world).viewshed@,
            world.combat_stats@ == old(world).combat_stats@,
            world.name@ == old(world).name@,
            forall|e2: int| 0 <= e2 < e ==> world.wants_to_melee@[e2] is None,
            forall|e2: int|
                e <= e2 < n ==> world.wants_to_melee@[e2] == old(world).wants_to_melee@[e2],
            forall|t: int|
                0 <= t < n ==> world.pending_damage(t) == old(world).pending_damage(t)
                    + attacks_on(*old(world), t, e as nat),
        decreases n - e,
    {
        let melee = world.wants_to_melee[e];
        let stats = world.combat_stats[e];
        let ghost w_pre = *world;
        if melee.is_some() && world.alive[e] && stats.is_some() {
            let t = melee.unwrap().target;
            let tstats = world.combat_stats[t];
            if world.alive[t] && tstats.is_some() {
                let power = stats.unwrap().power;
                let defense = tstats.unwrap().defense;
                let diff = power - defense;
                let d: i32 = if diff < 1 {
                    1
                } else {
                    diff
                };
                assert(d as int == melee_damage(power as int, defense as int));
                match &mut world.suffer_damage[t] {
                    Option::Some(s) => {
                        s.amount.push(d);
                    },
                    Option::None => {
                        let mut amount: Vec<i32> = Vec::new();
                        amount.push(d);
                        world.suffer_damage[t] = Option::Some(SufferDamage { amount });
                    },
                }
                proof {
                    assert(world.pending_damage(t as int) == w_pre.pending_damage(t as int).push(
                        d,
                    ));
                    assert forall|t2: int| 0 <= t2 < n && t2 != t implies world.pending_damage(t2)
                        == w_pre.pending_damage(t2) by {}
                }
            }
        }
        world.wants_to_melee[e] = Option::None;
        e = e + 1;
        proof {
            assert forall|t2: int| 0 <= t2 < n implies world.pending_damage(t2) == old(
                world,
            ).pending_damage(t2) + attacks_on(*old(world), t2, e as nat) by {
                lemma_attacks_unfold(*old(world), t2, e as nat);
                assert(attacker_hits(*old(world), e - 1, t2) == attacker_hits(w_pre, e - 1, t2));
                assert(w_pre.pending_damage(t2) == old(world).pending_damage(t2) + attacks_on(
                    *old(world),
                    t2,
                    (e - 1) as nat,
                ));
                if attacker_hits(w_pre, e - 1, t2) {
                    assert(world.pending_damage(t2) == w_pre.pending_damage(t2).push(
                        attacks_on(*old(world), t2, e as nat).last(),
                    ));
                } else {
                    assert(world.pending_damage(t2) == w_pre.pending_damage(t2));
                }
                assert(world.pending_damage(t2) =~= old(world).pending_damage(t2) + attacks_on(
                    *old(world),
                    t2,
                    e as nat,
                ));
            }
            assert forall|e2: int, k: int|
                0 <= e2 < world.num() && 0 <= k < world.pending_damage(e2).len() implies
                #[trigger] world.pending_damage(e2)[k] >= 0 by {
                lemma_attacks_positive(*old(world), e2, e as nat);
                assert(world.pending_damage(e2) == old(world).pending_damage(e2) + attacks_on(
                    *old(world),
                    e2,
                    e as nat,
                ));
                if k < old(world).pending_damage(e2).len() {
                    assert(world.pending_damage(e2)[k] == old(world).pending_damage(e2)[k]);
                } else {
                    assert(world.pending_damage(e2)[k] == attacks_on(*old(world), e2, e as nat)[k
                        - old(world).pending_damage(e2).len()]);
                }
            }
        }
    }
}

} // verus!
