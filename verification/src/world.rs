//! The actor store: one column per component kind, keyed by a stable integer
//! identifier (the row). An actor owns whatever combination of components
//! its row holds; removing an actor clears its whole row.

use vstd::prelude::*;

use crate::components::{CombatStats, Name, Position, SufferDamage, Viewshed, WantsToMelee};

verus! {

pub struct World {
    pub alive: Vec<bool>,
    pub player: Vec<bool>,
    pub monster: Vec<bool>,
    pub blocks_tile: Vec<bool>,
    pub position: Vec<Option<Position>>,
    pub viewshed: Vec<Option<Viewshed>>,
    pub combat_stats: Vec<Option<CombatStats>>,
    pub wants_to_melee: Vec<Option<WantsToMelee>>,
    pub suffer_damage: Vec<Option<SufferDamage>>,
    pub name: Vec<Option<Name>>,
}

impl World {
    /// Number of rows ever allocated; identifiers are indices below this.
    pub open spec fn num(self) -> int {
        self.alive@.len() as int
    }

    /// The damage pending against actor `e`: empty when none is recorded.
    pub open spec fn pending_damage(self, e: int) -> Seq<i32> {
        match self.suffer_damage@[e] {
            Option::Some(s) => s.amount@,
            Option::None => Seq::empty(),
        }
    }

    /// Columns of equal height; combat stats well-formed; pending damage
    /// non-negative; melee intents aimed at allocated rows.
    pub open spec fn wf(self) -> bool {
        &&& self.player@.len() == self.num()
        &&& self.monster@.len() == self.num()
        &&& self.blocks_tile@.len() == self.num()
        &&& self.position@.len() == self.num()
        &&& self.viewshed@.len() == self.num()
        &&& self.combat_stats@.len() == self.num()
        &&& self.wants_to_melee@.len() == self.num()
        &&& self.suffer_damage@.len() == self.num()
        &&& self.name@.len() == self.num()
        &&& forall|e: int|
            0 <= e < self.num() && self.combat_stats@[e] is Some
                ==> (#[trigger] self.combat_stats@[e])->Some_0.wf()
        &&& forall|e: int, k: int|
            0 <= e < self.num() && 0 <= k < self.pending_damage(e).len()
                ==> #[trigger] self.pending_damage(e)[k] >= 0
        &&& forall|e: int|
            0 <= e < self.num() && self.wants_to_melee@[e] is Some
                ==> 0 <= (#[trigger] self.wants_to_melee@[e])->Some_0.target < self.num()
        &&& forall|e: int|
            0 <= e < self.num() && self.viewshed@[e] is Some ==> 0 <= (
            #[trigger] self.viewshed@[e])->Some_0.range <= 4096
    }

    /// At most one actor carries the player tag.
    pub open spec fn at_most_one_player(self) -> bool {
        forall|i: int, j: int|
            0 <= i < self.num() && 0 <= j < self.num() && #[trigger] self.player@[i]
                && #[trigger] self.player@[j] ==> i == j
    }

    pub fn new() -> (w: World)
        ensures
            w.wf(),
            w.num() == 0,
    {
        World {
            alive: Vec::new(),
            player: Vec::new(),
            monster: Vec::new(),
            blocks_tile: Vec::new(),
            position: Vec::new(),
            viewshed: Vec::new(),
            combat_stats: Vec::new(),
            wants_to_melee: Vec::new(),
            suffer_damage: Vec::new(),
            name: Vec::new(),
        }
    }

    pub fn len(&self) -> (n: usize)
        requires
            self.wf(),
        ensures
            n == self.num(),
    {
        self.alive.len()
    }

    /// Allocate a fresh empty row and return its identifier.
    pub fn add_entity(&mut self) -> (id: usize)
        requires
            old(self).wf(),
        ensures
            final(self).wf(),
            id == old(self).num(),
            final(self).num() == old(self).num() + 1,
            final(self).alive@ == old(self).alive@.push(true),
            final(self).player@ == old(self).player@.push(false),
            final(self).monster@ == old(self).monster@.push(false),
            final(self).blocks_tile@ == old(self).blocks_tile@.push(false),
            final(self).position@ == old(self).position@.push(Option::None),
            final(self).viewshed@ == old(self).viewshed@.push(Option::None),
            final(self).combat_stats@ == old(self).combat_stats@.push(Option::None),
            final(self).wants_to_melee@ == old(self).wants_to_melee@.push(Option::None),
            final(self).suffer_damage@ == old(self).suffer_damage@.push(Option::None),
            final(self).name@ == old(self).name@.push(Option::None),
    {
        let id = self.alive.len();
        self.alive.push(true);
        self.player.push(false);
        self.monster.push(false);
        self.blocks_tile.push(false);
        self.position.push(Option::None);
        self.viewshed.push(Option::None);
        self.combat_stats.push(Option::None);
        self.wants_to_melee.push(Option::None);
        self.suffer_damage.push(Option::None);
        self.name.push(Option::None);
        proof {
            assert forall|e: int, k: int|
                0 <= e < self.num() && 0 <= k < self.pending_damage(e).len() implies
                #[trigger] self.pending_damage(e)[k] >= 0 by {
                if e < old(self).num() {
                    assert(self.pending_damage(e) == old(self).pending_damage(e));
                }
            }
        }
        id
    }
}

} // verus!
