//! The spatial model of one dungeon level: a rectangular grid of tiles in
//! row-major order, the list of placed rooms, per-tile visibility memory
//! (`revealed_tiles`, `visible_tiles`), the per-turn `blocked` classification
//! and the per-turn `tile_content` occupancy index.

use vstd::prelude::*;

use crate::rect::Rect;

verus! {

pub open spec fn spec_min(a: int, b: int) -> int {
    if a < b {
        a
    } else {
        b
    }
}

pub open spec fn spec_max(a: int, b: int) -> int {
    if a < b {
        b
    } else {
        a
    }
}

pub const MAPWIDTH: i32 = 80;
pub const MAPHEIGHT: i32 = 43;

#[derive(PartialEq, Eq, Structural, Copy, Clone, Debug)]
pub enum TileType {
    Wall,
    Floor,
}

pub struct GameMap {
    pub tiles: Vec<TileType>,
    pub rooms: Vec<Rect>,
    pub width: i32,
    pub height: i32,
    /// Tiles the player has ever seen.
    pub revealed_tiles: Vec<bool>,
    /// Tiles the player sees this frame.
    pub visible_tiles: Vec<bool>,
    /// Tiles impassable this turn: walls, plus tiles occupied by a blocking actor.
    pub blocked: Vec<bool>,
    pub depth: i32,
    /// Actor identifiers standing on each tile, rebuilt every turn.
    pub tile_content: Vec<Vec<usize>>,
}

/// Row-major tile index of an in-bounds position.
pub proof fn lemma_idx_bounds(w: int, h: int, x: int, y: int)
    by (nonlinear_arith)
    requires
        0 < w,
        0 < h,
        0 <= x < w,
        0 <= y < h,
    ensures
        0 <= y * w + x < w * h,
{
}

/// The row-major formula is invertible, so distinct in-bounds positions get
/// distinct tile indices.
pub proof fn lemma_idx_inverse(w: int, x: int, y: int)
    by (nonlinear_arith)
    requires
        0 < w,
        0 <= x < w,
        0 <= y,
    ensures
        (y * w + x) / w == y,
        (y * w + x) % w == x,
{
}

pub proof fn lemma_count_bound(w: int, h: int)
    by (nonlinear_arith)
    requires
        0 < w <= 4096,
        0 < h <= 4096,
    ensures
        0 < w * h <= 16777216,
{
}

pub proof fn lemma_idx_injective(w: int, xa: int, ya: int, xb: int, yb: int)
    requires
        0 < w,
        0 <= xa < w,
        0 <= ya,
        0 <= xb < w,
        0 <= yb,
        ya * w + xa == yb * w + xb,
    ensures
        xa == xb,
        ya == yb,
{
    lemma_idx_inverse(w, xa, ya);
    lemma_idx_inverse(w, xb, yb);
}

impl GameMap {
    pub open spec fn in_bounds(self, x: int, y: int) -> bool {
        0 <= x < self.width && 0 <= y < self.height
    }

    pub open spec fn idx_of(self, x: int, y: int) -> int {
        y * self.width + x
    }

    pub open spec fn count(self) -> int {
        self.width * self.height
    }

    /// Structural well-formedness: positive bounded extent and every parallel
    /// per-tile array of exactly one entry per tile.
    pub open spec fn wf(self) -> bool {
        &&& 0 < self.width <= 4096
        &&& 0 < self.height <= 4096
        &&& self.tiles@.len() == self.count()
        &&& self.revealed_tiles@.len() == self.count()
        &&& self.visible_tiles@.len() == self.count()
        &&& self.blocked@.len() == self.count()
        &&& self.tile_content@.len() == self.count()
    }

    pub open spec fn tile_at(self, x: int, y: int) -> TileType {
        self.tiles@[self.idx_of(x, y)]
    }

    pub open spec fn is_floor(self, x: int, y: int) -> bool {
        self.in_bounds(x, y) && self.tile_at(x, y) == TileType::Floor
    }

    /// Per-tile floor passability, in the shape the reachability
    /// definitions take.
    pub open spec fn floor_mask(self) -> Seq<bool> {
        Seq::new((self.width * self.height) as nat, |i: int| self.tiles@[i] == TileType::Floor)
    }

    /// Opacity for the visibility engine: walls block sight, floors do not.
    pub open spec fn is_opaque(self, x: int, y: int) -> bool {
        self.in_bounds(x, y) && self.tile_at(x, y) == TileType::Wall
    }

    pub fn xy_idx(&self, x: i32, y: i32) -> (idx: usize)
        requires
            self.wf(),
            self.in_bounds(x as int, y as int),
        ensures
            idx == self.idx_of(x as int, y as int),
            idx < self.tiles@.len(),
    {
        proof {
            lemma_idx_bounds(self.width as int, self.height as int, x as int, y as int);
            lemma_count_bound(self.width as int, self.height as int);
        }
        (y as usize) * (self.width as usize) + (x as usize)
    }

    /// A fresh level of the standard extent: all walls, nothing placed,
    /// nothing revealed, visible or blocked, no occupants recorded.
    pub fn new(new_depth: i32) -> (m: GameMap)
        ensures
            m.wf(),
            m.width == MAPWIDTH,
            m.height == MAPHEIGHT,
            m.depth == new_depth,
            m.rooms@.len() == 0,
            forall|i: int| 0 <= i < m.count() ==> m.tiles@[i] == TileType::Wall,
            forall|i: int| 0 <= i < m.count() ==> !m.revealed_tiles@[i],
            forall|i: int| 0 <= i < m.count() ==> !m.visible_tiles@[i],
            forall|i: int| 0 <= i < m.count() ==> !m.blocked@[i],
            forall|i: int| 0 <= i < m.count() ==> m.tile_content@[i]@.len() == 0,
    {
        let count: usize = 3440;
        assert(count == MAPWIDTH * MAPHEIGHT);
        let mut tiles: Vec<TileType> = Vec::new();
        let mut revealed: Vec<bool> = Vec::new();
        let mut visible: Vec<bool> = Vec::new();
        let mut blocked: Vec<bool> = Vec::new();
        let mut content: Vec<Vec<usize>> = Vec::new();
        let mut i: usize = 0;
        while i < count
            invariant
                i <= count,
                tiles@.len() == i,
                revealed@.len() == i,
                visible@.len() == i,
                blocked@.len() == i,
                content@.len() == i,
                forall|j: int| 0 <= j < i ==> tiles@[j] == TileType::Wall,
                forall|j: int| 0 <= j < i ==> !revealed@[j],
                forall|j: int| 0 <= j < i ==> !visible@[j],
                forall|j: int| 0 <= j < i ==> !blocked@[j],
                forall|j: int| 0 <= j < i ==> content@[j]@.len() == 0,
            decreases count - i,
        {
            tiles.push(TileType::Wall);
            revealed.push(false);
            visible.push(false);
            blocked.push(false);
            content.push(Vec::new());
            i = i + 1;
        }
        GameMap {
            tiles,
            rooms: Vec::new(),
            width: MAPWIDTH,
            height: MAPHEIGHT,
            revealed_tiles: revealed,
            visible_tiles: visible,
            blocked,
            depth: new_depth,
            tile_content: content,
        }
    }

    /// Carve a room: every tile of the rectangle's interior becomes floor;
    /// every other tile, and every other field, is untouched.
    #[verifier::rlimit(40)]
    pub fn apply_room_to_map(&mut self, room: &Rect)
        requires
            old(self).wf(),
            0 <= room.x1,
            0 <= room.y1,
            room.x1 <= room.x2 < old(self).width,
            room.y1 <= room.y2 < old(self).height,
        ensures
            final(self).wf(),
            final(self).width == old(self).width,
            final(self).height == old(self).height,
            final(self).depth == old(self).depth,
            final(self).rooms == old(self).rooms,
            final(self).revealed_tiles == old(self).revealed_tiles,
            final(self).visible_tiles == old(self).visible_tiles,
            final(self).blocked == old(self).blocked,
            final(self).tile_content == old(self).tile_content,
            final(self).tiles@.len() == old(self).tiles@.len(),
            forall|x: int, y: int|
                old(self).in_bounds(x, y) ==> final(self).tile_at(x, y) == (if room.carved(x, y) {
                    TileType::Floor
                } else {
                    old(self).tile_at(x, y)
                }),
    {
        let ghost w = self.width as int;
        let ghost h = self.height as int;
        let mut y: i32 = room.y1 + 1;
        while y <= room.y2
            invariant
                self.wf(),
                self.width == old(self).width,
                self.height == old(self).height,
                self.depth == old(self).depth,
                self.rooms == old(self).rooms,
                self.revealed_tiles == old(self).revealed_tiles,
                self.visible_tiles == old(self).visible_tiles,
                self.blocked == old(self).blocked,
                self.tile_content == old(self).tile_content,
                self.tiles@.len() == old(self).tiles@.len(),
                0 <= room.x1,
                0 <= room.y1,
                room.x1 <= room.x2 < self.width,
                room.y1 <= room.y2 < self.height,
                room.y1 + 1 <= y <= room.y2 + 1,
                forall|xx: int, yy: int| #![trigger old(self).in_bounds(xx, yy)]
                    old(self).in_bounds(xx, yy) ==> self.tile_at(xx, yy) == (
                    if room.carved(xx, yy) && yy < y {
                        TileType::Floor
                    } else {
                        old(self).tile_at(xx, yy)
                    }),
            decreases room.y2 - y + 1,
        {
            let mut x: i32 = room.x1 + 1;
            while x <= room.x2
                invariant
                    self.wf(),
                    self.width == old(self).width,
                    self.height == old(self).height,
                    self.depth == old(self).depth,
                    self.rooms == old(self).rooms,
                    self.revealed_tiles == old(self).revealed_tiles,
                    self.visible_tiles == old(self).visible_tiles,
                    self.blocked == old(self).blocked,
                    self.tile_content == old(self).tile_content,
                    self.tiles@.len() == old(self).tiles@.len(),
                    0 <= room.x1,
                    0 <= room.y1,
                    room.x1 <= room.x2 < self.width,
                    room.y1 <= room.y2 < self.height,
                    room.y1 + 1 <= y <= room.y2,
                    room.x1 + 1 <= x <= room.x2 + 1,
                    forall|xx: int, yy: int| #![trigger old(self).in_bounds(xx, yy)]
                        old(self).in_bounds(xx, yy) ==> self.tile_at(xx, yy) == (
                        if room.carved(xx, yy) && (yy < y || (yy == y && xx < x)) {
                            TileType::Floor
                        } else {
                            old(self).tile_at(xx, yy)
                        }),
                decreases room.x2 - x + 1,
            {
                let idx = self.xy_idx(x, y);
                let ghost prev = self.tiles@;
                let ghost x0 = x as int;
                self.tiles[idx] = TileType::Floor;
                x = x + 1;
                proof {
                    assert(self.tiles@ == prev.update(idx as int, TileType::Floor));
                    assert forall|xx: int, yy: int| #![trigger old(self).in_bounds(xx, yy)]
                        old(self).in_bounds(xx, yy) implies self.tile_at(xx, yy) == (
                    if room.carved(xx, yy) && (yy < y || (yy == y && xx < x)) {
                        TileType::Floor
                    } else {
                        old(self).tile_at(xx, yy)
                    }) by {
                        let ii = yy * self.width as int + xx;
                        lemma_idx_bounds(self.width as int, self.height as int, xx, yy);
                        if ii == idx {
                            lemma_idx_injective(self.width as int, xx, yy, x0, y as int);
                            assert(xx == x0 && yy == y);
                            assert(room.carved(xx, yy));
                            assert(self.tile_at(xx, yy) == TileType::Floor);
                        } else {
                            assert(self.tiles@[ii] == prev[ii]);
                            assert(prev[ii] == (if room.carved(xx, yy) && (yy < y || (yy == y
                                && xx < x0)) {
                                TileType::Floor
                            } else {
                                old(self).tile_at(xx, yy)
                            }));
                            assert(!(xx == x0 && yy == y));
                        }
                    }
                }
            }
            y = y + 1;
        }
    }
    /// Carve a horizontal corridor run at row `y` spanning the columns from
    /// `x1` to `x2` in either order; nothing else changes.
    pub fn apply_horizontal_tunnel(&mut self, x1: i32, x2: i32, y: i32)
        requires
            old(self).wf(),
            0 <= x1 < old(self).width,
            0 <= x2 < old(self).width,
            0 <= y < old(self).height,
        ensures
            final(self).wf(),
            final(self).width == old(self).width,
            final(self).height == old(self).height,
            final(self).depth == old(self).depth,
            final(self).rooms == old(self).rooms,
            final(self).revealed_tiles == old(self).revealed_tiles,
            final(self).visible_tiles == old(self).visible_tiles,
            final(self).blocked == old(self).blocked,
            final(self).tile_content == old(self).tile_content,
            final(self).tiles@.len() == old(self).tiles@.len(),
            forall|xx: int, yy: int| #![trigger old(self).in_bounds(xx, yy)]
                old(self).in_bounds(xx, yy) ==> final(self).tile_at(xx, yy) == (
                if yy == y && spec_min(x1 as int, x2 as int) <= xx <= spec_max(
                    x1 as int,
                    x2 as int,
                ) {
                    TileType::Floor
                } else {
                    old(self).tile_at(xx, yy)
                }),
    {
        let lo: i32 = if x1 < x2 {
            x1
        } else {
            x2
        };
        let hi: i32 = if x1 < x2 {
            x2
        } else {
            x1
        };
        let mut x: i32 = lo;
        while x <= hi
            invariant
                self.wf(),
                self.width == old(self).width,
                self.height == old(self).height,
                self.depth == old(self).depth,
                self.rooms == old(self).rooms,
                self.revealed_tiles == old(self).revealed_tiles,
                self.visible_tiles == old(self).visible_tiles,
                self.blocked == old(self).blocked,
                self.tile_content == old(self).tile_content,
                self.tiles@.len() == old(self).tiles@.len(),
                lo == spec_min(x1 as int, x2 as int),
                hi == spec_max(x1 as int, x2 as int),
                0 <= lo <= hi < self.width,
                0 <= y < self.height,
                lo <= x <= hi + 1,
                forall|xx: int, yy: int| #![trigger old(self).in_bounds(xx, yy)]
                    old(self).in_bounds(xx, yy) ==> self.tile_at(xx, yy) == (
                    if yy == y && lo <= xx < x {
                        TileType::Floor
                    } else {
                        old(self).tile_at(xx, yy)
                    }),
            decreases hi - x + 1,
        {
            let idx = self.xy_idx(x, y);
            let ghost prev = self.tiles@;
            let ghost x0 = x as int;
            self.tiles[idx] = TileType::Floor;
            x = x + 1;
            proof {
                assert(self.tiles@ == prev.update(idx as int, TileType::Floor));
                assert forall|xx: int, yy: int| #![trigger old(self).in_bounds(xx, yy)]
                    old(self).in_bounds(xx, yy) implies self.tile_at(xx, yy) == (
                if yy == y && lo <= xx < x {
                    TileType::Floor
                } else {
                    old(self).tile_at(xx, yy)
                }) by {
                    let ii = yy * self.width as int + xx;
                    lemma_idx_bounds(self.width as int, self.height as int, xx, yy);
                    if ii == idx {
                        lemma_idx_injective(self.width as int, xx, yy, x0, y as int);
                    } else {
                        assert(self.tiles@[ii] == prev[ii]);
                        assert(!(xx == x0 && yy == y));
                    }
                }
            }
        }
    }

    /// Carve a vertical corridor run at column `x` spanning the rows from
    /// `y1` to `y2` in either order; nothing else changes.
    pub fn apply_vertical_tunnel(&mut self, y1: i32, y2: i32, x: i32)
        requires
            old(self).wf(),
            0 <= y1 < old(self).height,
            0 <= y2 < old(self).height,
            0 <= x < old(self).width,
        ensures
            final(self).wf(),
            final(self).width == old(self).width,
            final(self).height == old(self).height,
            final(self).depth == old(self).depth,
            final(self).rooms == old(self).rooms,
            final(self).revealed_tiles == old(self).revealed_tiles,
            final(self).visible_tiles == old(self).visible_tiles,
            final(self).blocked == old(self).blocked,
            final(self).tile_content == old(self).tile_content,
            final(self).tiles@.len() == old(self).tiles@.len(),
            forall|xx: int, yy: int| #![trigger old(self).in_bounds(xx, yy)]
                old(self).in_bounds(xx, yy) ==> final(self).tile_at(xx, yy) == (
                if xx == x && spec_min(y1 as int, y2 as int) <= yy <= spec_max(
                    y1 as int,
                    y2 as int,
                ) {
                    TileType::Floor
                } else {
                    old(self).tile_at(xx, yy)
                }),
    {
        let lo: i32 = if y1 < y2 {
            y1
        } else {
            y2
        };
        let hi: i32 = if y1 < y2 {
            y2
        } else {
            y1
        };
        let mut y: i32 = lo;
        while y <= hi
            invariant
                self.wf(),
                self.width == old(self).width,
                self.height == old(self).height,
                self.depth == old(self).depth,
                self.rooms == old(self).rooms,
                self.revealed_tiles == old(self).revealed_tiles,
                self.visible_tiles == old(self).visible_tiles,
                self.blocked == old(self).blocked,
                self.tile_content == old(self).tile_content,
                self.tiles@.len() == old(self).tiles@.len(),
                lo == spec_min(y1 as int, y2 as int),
                hi == spec_max(y1 as int, y2 as int),
                0 <= lo <= hi < self.height,
                0 <= x < self.width,
                lo <= y <= hi + 1,
                forall|xx: int, yy: int| #![trigger old(self).in_bounds(xx, yy)]
                    old(self).in_bounds(xx, yy) ==> self.tile_at(xx, yy) == (
                    if xx == x && lo <= yy < y {
                        TileType::Floor
                    } else {
                        old(self).tile_at(xx, yy)
                    }),
            decreases hi - y + 1,
        {
            let idx = self.xy_idx(x, y);
            let ghost prev = self.tiles@;
            let ghost y0 = y as int;
            self.tiles[idx] = TileType::Floor;
            y = y + 1;
            proof {
                assert(self.tiles@ == prev.update(idx as int, TileType::Floor));
                assert forall|xx: int, yy: int| #![trigger old(self).in_bounds(xx, yy)]
                    old(self).in_bounds(xx, yy) implies self.tile_at(xx, yy) == (
                if xx == x && lo <= yy < y {
                    TileType::Floor
                } else {
                    old(self).tile_at(xx, yy)
                }) by {
                    let ii = yy * self.width as int + xx;
                    lemma_idx_bounds(self.width as int, self.height as int, xx, yy);
                    if ii == idx {
                        lemma_idx_injective(self.width as int, xx, yy, x as int, y0);
                    } else {
                        assert(self.tiles@[ii] == prev[ii]);
                        assert(!(xx == x && yy == y0));
                    }
                }
            }
        }
    }

    /// Rebuild the terrain part of `blocked`: a tile starts a turn blocked
    /// exactly when it is a wall.
    pub fn populate_blocked(&mut self)
        requires
            old(self).wf(),
        ensures
            final(self).wf(),
            *final(self) == (GameMap { blocked: final(self).blocked, ..*old(self) }),
            final(self).blocked@.len() == old(self).blocked@.len(),
            forall|i: int|
                0 <= i < final(self).blocked@.len() ==> final(self).blocked@[i] == (
                final(self).tiles@[i] == TileType::Wall),
    {
        let n = self.tiles.len();
        let mut i: usize = 0;
        while i < n
            invariant
                self.wf(),
                n == self.tiles@.len(),
                i <= n,
                *self == (GameMap { blocked: self.blocked, ..*old(self) }),
                self.blocked@.len() == old(self).blocked@.len(),
                forall|j: int| 0 <= j < i ==> self.blocked@[j] == (self.tiles@[j]
                    == TileType::Wall),
                forall|j: int| i <= j < n ==> self.blocked@[j] == old(self).blocked@[j],
            decreases n - i,
        {
            let b = self.tiles[i] == TileType::Wall;
            self.blocked[i] = b;
            i = i + 1;
        }
    }

    /// Drop every recorded occupant: after this, no tile holds any actor.
    pub fn clear_content_index(&mut self)
        requires
            old(self).wf(),
        ensures
            final(self).wf(),
            *final(self) == (GameMap { tile_content: final(self).tile_content, ..*old(self) }),
            final(self).tile_content@.len() == old(self).tile_content@.len(),
            forall|i: int|
                0 <= i < final(self).tile_content@.len() ==> final(self).tile_content@[i]@.len()
                    == 0,
    {
        let n = self.tile_content.len();
        let mut i: usize = 0;
        while i < n
            invariant
                self.wf(),
                n == self.tile_content@.len(),
                i <= n,
                *self == (GameMap { tile_content: self.tile_content, ..*old(self) }),
                self.tile_content@.len() == old(self).tile_content@.len(),
                forall|j: int| 0 <= j < i ==> self.tile_content@[j]@.len() == 0,
            decreases n - i,
        {
            self.tile_content[i] = Vec::new();
            i = i + 1;
        }
    }
}

} // verus!
