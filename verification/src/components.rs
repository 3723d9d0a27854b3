//! The components an actor may carry. The store keeps each kind in its own
//! column, so an actor is whatever combination of these its row holds.

use vstd::prelude::*;

verus! {

/// A tile position. Kept in bounds and off walls by every verified mutation.
#[derive(PartialEq, Eq, Structural, Copy, Clone, Debug)]
pub struct Position {
    pub x: i32,
    pub y: i32,
}

/// A point of a computed visible-tile list.
#[derive(PartialEq, Eq, Structural, Copy, Clone, Debug)]
pub struct Point {
    pub x: i32,
    pub y: i32,
}

/// What an actor currently sees: the visible tiles, its sight range, and
/// whether the set must be recomputed.
#[derive(Clone, Debug)]
pub struct Viewshed {
    pub visible_tiles: Vec<Point>,
    pub range: i32,
    pub dirty: bool,
}

/// A display label; the core logic never reads it.
#[derive(Clone, Debug)]
pub struct Name {
    pub name: String,
}

#[derive(PartialEq, Eq, Structural, Copy, Clone, Debug)]
pub struct CombatStats {
    pub max_hp: i32,
    pub hp: i32,
    pub defense: i32,
    pub power: i32,
}

impl CombatStats {
    /// Non-negative stats with health within its maximum.
    pub open spec fn wf(self) -> bool {
        &&& 0 <= self.hp <= self.max_hp
        &&& 0 <= self.defense
        &&& 0 <= self.power
    }
}

/// A decided melee attack, resolved and cleared by the combat pass.
#[derive(PartialEq, Eq, Structural, Copy, Clone, Debug)]
pub struct WantsToMelee {
    pub target: usize,
}

/// Damage accumulated this turn, drained by the damage applicator.
#[derive(Clone, Debug)]
pub struct SufferDamage {
    pub amount: Vec<i32>,
}

} // verus!
