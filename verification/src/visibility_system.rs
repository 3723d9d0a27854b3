//! The visibility engine. A tile is visible from an actor when it is in
//! bounds, within the sight range by squared Euclidean distance, and a line
//! of sight in either direction is free of walls. Checking the line both
//! ways makes visibility symmetric by construction. Viewsheds are cached:
//! only a dirty one is recomputed, and recomputation is a pure function of
//! the terrain, the position and the range.

use vstd::prelude::*;

use crate::components::{Point, Viewshed};
use crate::map::{spec_max, GameMap, TileType};
use crate::world::World;

verus! {

pub open spec fn dist2(a: (int, int), b: (int, int)) -> int {
    (a.0 - b.0) * (a.0 - b.0) + (a.1 - b.1) * (a.1 - b.1)
}

pub open spec fn sgn(d: int) -> int {
    if d > 0 {
        1
    } else if d < 0 {
        -1
    } else {
        0
    }
}

pub open spec fn abs_of(d: int) -> int {
    if d < 0 {
        -d
    } else {
        d
    }
}

/// Number of king-move steps of the walk from `a` to `b`.
pub open spec fn steps(a: (int, int), b: (int, int)) -> int {
    spec_max(abs_of(b.0 - a.0), abs_of(b.1 - a.1))
}

/// The `i`-th position of the diagonal-then-straight walk from `a` to `b`.
pub open spec fn line_pt(a: (int, int), b: (int, int), i: int) -> (int, int) {
    (
        a.0 + sgn(b.0 - a.0) * crate::map::spec_min(i, abs_of(b.0 - a.0)),
        a.1 + sgn(b.1 - a.1) * crate::map::spec_min(i, abs_of(b.1 - a.1)),
    )
}

/// No wall strictly between `a` and `b` along the walk from `a`.
pub open spec fn los_oneway(m: GameMap, a: (int, int), b: (int, int)) -> bool {
    forall|i: int| 1 <= i < steps(a, b) ==> !m.is_opaque(line_pt(a, b, i).0, line_pt(a, b, i).1)
}

/// `b` is visible from `a` within `range`: in bounds, close enough, and a
/// clear line of sight in one direction or the other.
pub open spec fn visible_from(m: GameMap, a: (int, int), b: (int, int), range: int) -> bool {
    &&& m.in_bounds(b.0, b.1)
    &&& dist2(a, b) <= range * range
    &&& (los_oneway(m, a, b) || los_oneway(m, b, a))
}

/// A square of a bounded coordinate difference fits comfortably in `i32`.
pub proof fn lemma_sq_bound(d: int)
    by (nonlinear_arith)
    requires
        -4096 <= d <= 4096,
    ensures
        0 <= d * d <= 16777216,
{
}

/// Visibility is symmetric: under one range and one obstruction layout,
/// `a` sees `b` exactly when `b` sees `a`.
pub proof fn lemma_visibility_symmetric(m: GameMap, a: (int, int), b: (int, int), range: int)
    requires
        m.in_bounds(a.0, a.1),
        m.in_bounds(b.0, b.1),
    ensures
        visible_from(m, a, b, range) == visible_from(m, b, a, range),
{
    assert(dist2(a, b) == dist2(b, a)) by (nonlinear_arith);
}

/// The visible tiles collected in row-major tile order, over the first `n`
/// tile indices.
pub open spec fn vis_seq(m: GameMap, p: (int, int), range: int, n: nat) -> Seq<Point>
    decreases n,
{
    if n == 0 {
        Seq::empty()
    } else {
        let rest = vis_seq(m, p, range, (n - 1) as nat);
        let tx = (n - 1) % (m.width as int);
        let ty = (n - 1) as int / (m.width as int);
        if visible_from(m, p, (tx, ty), range) {
            rest.push(Point { x: tx as i32, y: ty as i32 })
        } else {
            rest
        }
    }
}

/// Recomputation is deterministic: on one terrain, an actor's position and
/// range fix the visible-tile set exactly, so marking a viewshed dirty and
/// recomputing with identical inputs reproduces the same set.
pub proof fn lemma_recompute_deterministic(
    m1: GameMap,
    m2: GameMap,
    p: (int, int),
    range: int,
)
    requires
        m1.tiles == m2.tiles,
        m1.width == m2.width,
        m1.height == m2.height,
    ensures
        vis_seq(m1, p, range, (m1.width * m1.height) as nat) == vis_seq(
            m2,
            p,
            range,
            (m2.width * m2.height) as nat,
        ),
{
    lemma_vis_seq_same_terrain(m1, m2, p, range, (m1.width * m1.height) as nat);
}

/// Whether the walk between two in-bounds endpoints stays clear of walls,
/// scanning from `a`.
fn los_clear_oneway(map: &GameMap, ax: i32, ay: i32, bx: i32, by: i32) -> (r: bool)
    requires
        map.wf(),
        map.in_bounds(ax as int, ay as int),
        map.in_bounds(bx as int, by as int),
    ensures
        r == los_oneway(*map, (ax as int, ay as int), (bx as int, by as int)),
{
    let dx = bx - ax;
    let dy = by - ay;
    let adx = if dx < 0 {
        -dx
    } else {
        dx
    };
    let ady = if dy < 0 {
        -dy
    } else {
        dy
    };
    let sx: i32 = if dx > 0 {
        1
    } else if dx < 0 {
        -1
    } else {
        0
    };
    let sy: i32 = if dy > 0 {
        1
    } else if dy < 0 {
        -1
    } else {
        0
    };
    let n = if adx > ady {
        adx
    } else {
        ady
    };
    let mut clear = true;
    let mut i: i32 = 1;
    while i < n
        invariant
            map.wf(),
            map.in_bounds(ax as int, ay as int),
            map.in_bounds(bx as int, by as int),
            dx == bx - ax,
            dy == by - ay,
            adx == abs_of(dx as int),
            ady == abs_of(dy as int),
            sx == sgn(dx as int),
            sy == sgn(dy as int),
            n == steps((ax as int, ay as int), (bx as int, by as int)),
            1 <= i <= spec_max(n as int, 1),
            clear == forall|j: int|
                1 <= j < i ==> !map.is_opaque(
                    line_pt((ax as int, ay as int), (bx as int, by as int), j).0,
                    line_pt((ax as int, ay as int), (bx as int, by as int), j).1,
                ),
        decreases n - i,
    {
        let ox = if i < adx {
            i
        } else {
            adx
        };
        let oy = if i < ady {
            i
        } else {
            ady
        };
        let px = ax + sx * ox;
        let py = ay + sy * oy;
        proof {
            assert((px as int, py as int) == line_pt(
                (ax as int, ay as int),
                (bx as int, by as int),
                i as int,
            ));
            assert(map.in_bounds(px as int, py as int));
        }
        let idx = map.xy_idx(px, py);
        if map.tiles[idx] == TileType::Wall {
            clear = false;
        }
        proof {
            if clear {
                assert forall|j: int| 1 <= j < i + 1 implies !map.is_opaque(
                    line_pt((ax as int, ay as int), (bx as int, by as int), j).0,
                    line_pt((ax as int, ay as int), (bx as int, by as int), j).1,
                ) by {}
            }
        }
        i = i + 1;
    }
    clear
}

/// Whether `(bx, by)` is visible from `(ax, ay)` within `range`.
pub fn is_visible_from(map: &GameMap, ax: i32, ay: i32, bx: i32, by: i32, range: i32) -> (r: bool)
    requires
        map.wf(),
        map.in_bounds(ax as int, ay as int),
        map.in_bounds(bx as int, by as int),
        0 <= range <= 4096,
    ensures
        r == visible_from(*map, (ax as int, ay as int), (bx as int, by as int), range as int),
{
    let dx = bx - ax;
    let dy = by - ay;
    proof {
        lemma_sq_bound(dx as int);
        lemma_sq_bound(dy as int);
        lemma_sq_bound(range as int);
        assert((ax as int - bx as int) * (ax as int - bx as int) == (bx as int - ax as int) * (
        bx as int - ax as int)) by (nonlinear_arith);
        assert((ay as int - by as int) * (ay as int - by as int) == (by as int - ay as int) * (
        by as int - ay as int)) by (nonlinear_arith);
    }
    let d2 = dx * dx + dy * dy;
    if d2 > range * range {
        return false;
    }
    if los_clear_oneway(map, ax, ay, bx, by) {
        return true;
    }
    los_clear_oneway(map, bx, by, ax, ay)
}

/// Recompute a visible-tile set: exactly the in-bounds tiles within range
/// with a clear line of sight, in row-major order. The result is a pure
/// function of the terrain, the position and the range, so recomputation
/// with equal inputs reproduces the same set.
pub fn compute_viewshed(map: &GameMap, px: i32, py: i32, range: i32) -> (r: Vec<Point>)
    requires
        map.wf(),
        map.in_bounds(px as int, py as int),
        0 <= range <= 4096,
    ensures
        r@ == vis_seq(*map, (px as int, py as int), range as int, (map.width * map.height) as nat),
        forall|k: int|
            0 <= k < r@.len() ==> map.in_bounds(#[trigger] r@[k].x as int, r@[k].y as int),
    {
    let count = map.tiles.len();
    proof {
        crate::map::lemma_count_bound(map.width as int, map.height as int);
    }
    let mut out: Vec<Point> = Vec::new();
    let mut i: usize = 0;
    while i < count
        invariant
            map.wf(),
            map.in_bounds(px as int, py as int),
            0 <= range <= 4096,
            count == map.tiles@.len(),
            count == (map.width * map.height) as nat,
            i <= count,
            out@ == vis_seq(*map, (px as int, py as int), range as int, i as nat),
            forall|k: int|
                0 <= k < out@.len() ==> map.in_bounds(#[trigger] out@[k].x as int, out@[k].y as int),
        decreases count - i,
    {
        let w = map.width as usize;
        let tx = (i % w) as i32;
        let ty = (i / w) as i32;
        proof {
            crate::reach::lemma_div_mod_grid(i as int, map.width as int, map.height as int);
        }
        let vis = is_visible_from(map, px, py, tx, ty, range);
        if vis {
            out.push(Point { x: tx, y: ty });
        }
        i = i + 1;
    }
    out
}

/// Some point of the list lands on tile index `idx`.
pub open spec fn list_covers(m: GameMap, pts: Seq<Point>, idx: int) -> bool {
    exists|k: int| 0 <= k < pts.len() && m.idx_of(#[trigger] pts[k].x as int, pts[k].y as int)
        == idx
}

/// Actor `e` has a dirty viewshed to recompute this pass.
pub open spec fn recomputes(w: World, e: int) -> bool {
    &&& 0 <= e < w.num()
    &&& w.alive@[e]
    &&& w.viewshed@[e] is Some
    &&& w.position@[e] is Some
    &&& w.viewshed@[e]->Some_0.dirty
}

/// Every alive positioned actor stands in bounds on the map.
pub open spec fn positions_in_bounds(w: World, m: GameMap) -> bool {
    forall|e: int|
        0 <= e < w.num() && w.alive@[e] && w.position@[e] is Some ==> m.in_bounds(
            (#[trigger] w.position@[e])->Some_0.x as int,
            w.position@[e]->Some_0.y as int,
        )
}

/// Overwrite the player's frame visibility: afterwards exactly the tiles
/// the list covers are visible, and they are newly revealed on top of what
/// was revealed before.
pub fn mark_player_visibility(map: &mut GameMap, pts: &Vec<Point>)
    requires
        old(map).wf(),
        forall|k: int|
            0 <= k < pts@.len() ==> old(map).in_bounds(#[trigger] pts@[k].x as int, pts@[k].y as int),
    ensures
        final(map).wf(),
        final(map).tiles == old(map).tiles,
        final(map).rooms == old(map).rooms,
        final(map).width == old(map).width,
        final(map).height == old(map).height,
        final(map).depth == old(map).depth,
        final(map).blocked == old(map).blocked,
        final(map).tile_content == old(map).tile_content,
        forall|idx: int|
            0 <= idx < final(map).count() ==> #[trigger] final(map).visible_tiles@[idx]
                == list_covers(*old(map), pts@, idx),
        forall|idx: int|
            0 <= idx < final(map).count() ==> #[trigger] final(map).revealed_tiles@[idx] == (old(map).revealed_tiles@[idx] || list_covers(*old(map), pts@, idx)),
{
    let n = map.visible_tiles.len();
    let mut i: usize = 0;
    while i < n
        invariant
            map.wf(),
            n == map.visible_tiles@.len(),
            i <= n,
            *map == (GameMap { visible_tiles: map.visible_tiles, ..*old(map) }),
            forall|idx: int| 0 <= idx < i ==> !(#[trigger] map.visible_tiles@[idx]),
        decreases n - i,
    {
        map.visible_tiles[i] = false;
        i = i + 1;
    }
    let m = pts.len();
    let mut k: usize = 0;
    while k < m
        invariant
            map.wf(),
            m == pts@.len(),
            k <= m,
            forall|k2: int|
                0 <= k2 < pts@.len() ==> old(map).in_bounds(
                    #[trigger] pts@[k2].x as int,
                    pts@[k2].y as int,
                ),
            map.tiles == old(map).tiles,
            map.rooms == old(map).rooms,
            map.width == old(map).width,
            map.height == old(map).height,
            map.depth == old(map).depth,
            map.blocked == old(map).blocked,
            map.tile_content == old(map).tile_content,
            forall|idx: int|
                0 <= idx < map.count() ==> #[trigger] map.visible_tiles@[idx] == list_covers(
                    *old(map),
                    pts@.subrange(0, k as int),
                    idx,
                ),
            forall|idx: int|
                0 <= idx < map.count() ==> #[trigger] map.revealed_tiles@[idx] == (old(map).revealed_tiles@[idx] || list_covers(*old(map), pts@.subrange(0, k as int), idx)),
        decreases m - k,
    {
        let p = pts[k];
        let idx = map.xy_idx(p.x, p.y);
        let ghost m_pre = *map;
        map.visible_tiles[idx] = true;
        map.revealed_tiles[idx] = true;
        k = k + 1;
        proof {
            let sub = pts@.subrange(0, k as int);
            let sub0 = pts@.subrange(0, k - 1);
            assert(sub.drop_last() =~= sub0);
            assert(sub.last() == pts@[k - 1]);
            assert forall|idx2: int| 0 <= idx2 < map.count() implies #[trigger] map.visible_tiles@[idx2]
                == list_covers(*old(map), sub, idx2) by {
                if idx2 == idx {
                    assert(sub[k - 1] == pts@[k - 1]);
                    assert(old(map).idx_of(sub[k - 1].x as int, sub[k - 1].y as int) == idx2);
                    assert(list_covers(*old(map), sub, idx2));
                } else {
                    if list_covers(*old(map), sub, idx2) {
                        let k2 = choose|k2: int|
                            0 <= k2 < sub.len() && old(map).idx_of(
                                #[trigger] sub[k2].x as int,
                                sub[k2].y as int,
                            ) == idx2;
                        assert(k2 < k - 1 ==> sub0[k2] == sub[k2]);
                        assert(k2 == k - 1 ==> idx2 == idx);
                        assert(list_covers(*old(map), sub0, idx2));
                    }
                    if list_covers(*old(map), sub0, idx2) {
                        let k2 = choose|k2: int|
                            0 <= k2 < sub0.len() && old(map).idx_of(
                                #[trigger] sub0[k2].x as int,
                                sub0[k2].y as int,
                            ) == idx2;
                        assert(sub[k2] == sub0[k2]);
                        assert(list_covers(*old(map), sub, idx2));
                    }
                }
            }
            assert forall|idx2: int| 0 <= idx2 < map.count() implies #[trigger] map.revealed_tiles@[idx2]
                == (old(map).revealed_tiles@[idx2] || list_covers(*old(map), sub, idx2)) by {
                if idx2 == idx {
                    assert(list_covers(*old(map), sub, idx2));
                } else {
                    if list_covers(*old(map), sub, idx2) {
                        let k2 = choose|k2: int|
                            0 <= k2 < sub.len() && old(map).idx_of(
                                #[trigger] sub[k2].x as int,
                                sub[k2].y as int,
                            ) == idx2;
                        assert(k2 < k - 1 ==> sub0[k2] == sub[k2]);
                        assert(list_covers(*old(map), sub0, idx2));
                    }
                    if list_covers(*old(map), sub0, idx2) {
                        let k2 = choose|k2: int|
                            0 <= k2 < sub0.len() && old(map).idx_of(
                                #[trigger] sub0[k2].x as int,
                                sub0[k2].y as int,
                            ) == idx2;
                        assert(sub[k2] == sub0[k2]);
                        assert(list_covers(*old(map), sub, idx2));
                    }
                }
            }
        }
    }
    proof {
        assert(pts@.subrange(0, pts@.len() as int) =~= pts@);
    }
}

/// Covering depends only on the grid width, not on the tile contents.
pub proof fn lemma_list_covers_same_dims(m1: GameMap, m2: GameMap, pts: Seq<Point>, idx: int)
    requires
        m1.width == m2.width,
    ensures
        list_covers(m1, pts, idx) == list_covers(m2, pts, idx),
{
    if list_covers(m1, pts, idx) {
        let k = choose|k: int|
            0 <= k < pts.len() && m1.idx_of(#[trigger] pts[k].x as int, pts[k].y as int) == idx;
        assert(m2.idx_of(pts[k].x as int, pts[k].y as int) == idx);
    }
    if list_covers(m2, pts, idx) {
        let k = choose|k: int|
            0 <= k < pts.len() && m2.idx_of(#[trigger] pts[k].x as int, pts[k].y as int) == idx;
        assert(m1.idx_of(pts[k].x as int, pts[k].y as int) == idx);
    }
}

/// Line of sight reads only the terrain, so equal terrain means equal
/// sight lines.
pub proof fn lemma_los_same_terrain(m1: GameMap, m2: GameMap, a: (int, int), b: (int, int))
    requires
        m1.tiles == m2.tiles,
        m1.width == m2.width,
        m1.height == m2.height,
    ensures
        los_oneway(m1, a, b) == los_oneway(m2, a, b),
{
    if los_oneway(m1, a, b) {
        assert forall|i: int| 1 <= i < steps(a, b) implies !m2.is_opaque(
            line_pt(a, b, i).0,
            line_pt(a, b, i).1,
        ) by {
            assert(!m1.is_opaque(line_pt(a, b, i).0, line_pt(a, b, i).1));
        }
    }
    if los_oneway(m2, a, b) {
        assert forall|i: int| 1 <= i < steps(a, b) implies !m1.is_opaque(
            line_pt(a, b, i).0,
            line_pt(a, b, i).1,
        ) by {
            assert(!m2.is_opaque(line_pt(a, b, i).0, line_pt(a, b, i).1));
        }
    }
}

/// The computed visible set reads only the terrain.
pub proof fn lemma_vis_seq_same_terrain(
    m1: GameMap,
    m2: GameMap,
    p: (int, int),
    range: int,
    n: nat,
)
    requires
        m1.tiles == m2.tiles,
        m1.width == m2.width,
        m1.height == m2.height,
    ensures
        vis_seq(m1, p, range, n) == vis_seq(m2, p, range, n),
    decreases n,
{
    if n > 0 {
        lemma_vis_seq_same_terrain(m1, m2, p, range, (n - 1) as nat);
        let tx = (n - 1) % (m1.width as int);
        let ty = (n - 1) as int / (m1.width as int);
        lemma_los_same_terrain(m1, m2, p, (tx, ty));
        lemma_los_same_terrain(m1, m2, (tx, ty), p);
    }
}

/// The recomputation pass: every dirty viewshed of an alive, positioned
/// actor is replaced by the freshly computed set with the flag cleared;
/// clean viewsheds are left exactly as they were. When the player's
/// viewshed was recomputed, the map's frame visibility is overwritten with
/// it and those tiles become revealed; otherwise the map's memory is
/// untouched.
#[verifier::rlimit(60)]
pub fn run(map: &mut GameMap, world: &mut World)
    requires
        old(map).wf(),
        old(world).wf(),
        old(world).at_most_one_player(),
        positions_in_bounds(*old(world), *old(map)),
    ensures
        final(map).wf(),
        final(world).wf(),
        final(map).tiles == old(map).tiles,
        final(map).rooms == old(map).rooms,
        final(map).width == old(map).width,
        final(map).height == old(map).height,
        final(map).depth == old(map).depth,
        final(map).blocked == old(map).blocked,
        final(map).tile_content == old(map).tile_content,
        *final(world) == (World { viewshed: final(world).viewshed, ..*old(world) }),
        final(world).viewshed@.len() == old(world).viewshed@.len(),
        forall|e: int|
            0 <= e < final(world).num() && !recomputes(*old(world), e)
                ==> #[trigger] final(world).viewshed@[e] == old(world).viewshed@[e],
        forall|e: int|
            0 <= e < final(world).num() && recomputes(*old(world), e)
                ==> (#[trigger] final(world).viewshed@[e]) is Some
                && final(world).viewshed@[e]->Some_0.range == old(world).viewshed@[e]->Some_0.range
                && !final(world).viewshed@[e]->Some_0.dirty
                && final(world).viewshed@[e]->Some_0.visible_tiles@ == vis_seq(
                *old(map),
                (old(world).position@[e]->Some_0.x as int, old(world).position@[e]->Some_0.y as int),
                old(world).viewshed@[e]->Some_0.range as int,
                (old(map).width * old(map).height) as nat,
            ),
        forall|e: int|
            0 <= e < final(world).num() && recomputes(*old(world), e) && old(world).player@[e]
                ==> (forall|idx: int|
                0 <= idx < final(map).count() ==> #[trigger] final(map).visible_tiles@[idx]
                    == list_covers(
                    *old(map),
                    final(world).viewshed@[e]->Some_0.visible_tiles@,
                    idx,
                )) && (forall|idx: int|
                0 <= idx < final(map).count() ==> #[trigger] final(map).revealed_tiles@[idx] == (
                old(map).revealed_tiles@[idx] || list_covers(
                    *old(map),
                    final(world).viewshed@[e]->Some_0.visible_tiles@,
                    idx,
                ))),
        (forall|e: int| !(recomputes(*old(world), e) && old(world).player@[e])) ==> final(map).visible_tiles == old(map).visible_tiles && final(map).revealed_tiles == old(map).revealed_tiles,
{
    let n = world.len();
    let mut e: usize = 0;
    while e < n
        invariant
            map.wf(),
            world.wf(),
            old(map).wf(),
            old(world).wf(),
            old(world).at_most_one_player(),
            positions_in_bounds(*old(world), *old(map)),
            n == world.num(),
            n == old(world).num(),
            e <= n,
            map.tiles == old(map).tiles,
            map.rooms == old(map).rooms,
            map.width == old(map).width,
            map.height == old(map).height,
            map.depth == old(map).depth,
            map.blocked == old(map).blocked,
            map.tile_content == old(map).tile_content,
            *world == (World { viewshed: world.viewshed, ..*old(world) }),
            world.viewshed@.len() == old(world).viewshed@.len(),
            forall|e2: int|
                e <= e2 < n ==> #[trigger] world.viewshed@[e2] == old(world).viewshed@[e2],
            forall|e2: int|
                0 <= e2 < e && !recomputes(*old(world), e2)
                    ==> #[trigger] world.viewshed@[e2] == old(world).viewshed@[e2],
            forall|e2: int|
                0 <= e2 < e && recomputes(*old(world), e2)
                    ==> (#[trigger] world.viewshed@[e2]) is Some
                    && world.viewshed@[e2]->Some_0.range == old(world).viewshed@[e2]->Some_0.range
                    && !world.viewshed@[e2]->Some_0.dirty
                    && world.viewshed@[e2]->Some_0.visible_tiles@ == vis_seq(
                    *old(map),
                    (
                        old(world).position@[e2]->Some_0.x as int,
                        old(world).position@[e2]->Some_0.y as int,
                    ),
                    old(world).viewshed@[e2]->Some_0.range as int,
                    (old(map).width * old(map).height) as nat,
                ),
            forall|e2: int|
                0 <= e2 < e && recomputes(*old(world), e2) && old(world).player@[e2]
                    ==> (forall|idx: int|
                    0 <= idx < map.count() ==> #[trigger] map.visible_tiles@[idx] == list_covers(
                        *old(map),
                        world.viewshed@[e2]->Some_0.visible_tiles@,
                        idx,
                    )) && (forall|idx: int|
                    0 <= idx < map.count() ==> #[trigger] map.revealed_tiles@[idx] == (old(map).revealed_tiles@[idx] || list_covers(
                        *old(map),
                        world.viewshed@[e2]->Some_0.visible_tiles@,
                        idx,
                    ))),
            (forall|e2: int| !(0 <= e2 < e && recomputes(*old(world), e2) && old(world).player@[e2]))
                ==> map.visible_tiles == old(map).visible_tiles && map.revealed_tiles == old(map).revealed_tiles,
        decreases n - e,
    {
        let alive_e = world.alive[e];
        let pos_opt = world.position[e];
        let mut dirty = false;
        let mut range: i32 = 0;
        match &world.viewshed[e] {
            Option::Some(v) => {
                dirty = v.dirty;
                range = v.range;
            },
            Option::None => {},
        }
        let has_view = world.viewshed[e].is_some();
        if alive_e && has_view && pos_opt.is_some() && dirty {
            let pos = pos_opt.unwrap();
            let pts = compute_viewshed(map, pos.x, pos.y, range);
            world.viewshed[e] = Option::Some(
                Viewshed { visible_tiles: pts, range, dirty: false },
            );
            proof {
                assert(recomputes(*old(world), e as int));
                lemma_vis_seq_same_terrain(
                    *map,
                    *old(map),
                    (pos.x as int, pos.y as int),
                    range as int,
                    (map.width * map.height) as nat,
                );
                assert(world.suffer_damage == old(world).suffer_damage);
                assert forall|e2: int, k: int|
                    0 <= e2 < world.num() && 0 <= k < world.pending_damage(e2).len() implies
                    #[trigger] world.pending_damage(e2)[k] >= 0 by {
                    assert(world.pending_damage(e2) == old(world).pending_damage(e2));
                }
                assert forall|e2: int|
                    0 <= e2 < world.num() && world.viewshed@[e2] is Some implies 0 <= (
                #[trigger] world.viewshed@[e2])->Some_0.range <= 4096 by {
                    if e2 == e {
                        assert(old(world).viewshed@[e2] is Some);
                    }
                }
            }
            if world.player[e] {
                let ghost m_call = *map;
                match &world.viewshed[e] {
                    Option::Some(v) => {
                        mark_player_visibility(map, &v.visible_tiles);
                    },
                    Option::None => {},
                }
                proof {
                    assert(old(world).player@[e as int]);
                    let vlist = world.viewshed@[e as int]->Some_0.visible_tiles@;
                    assert forall|idx: int| 0 <= idx < map.count() implies #[trigger] map.visible_tiles@[idx]
                        == list_covers(*old(map), vlist, idx) by {
                        lemma_list_covers_same_dims(m_call, *old(map), vlist, idx);
                    }
                    assert forall|idx: int| 0 <= idx < map.count() implies #[trigger] map.revealed_tiles@[idx]
                        == (old(map).revealed_tiles@[idx] || list_covers(*old(map), vlist, idx)) by {
                        lemma_list_covers_same_dims(m_call, *old(map), vlist, idx);
                        assert(m_call.revealed_tiles@[idx] == old(map).revealed_tiles@[idx]
                            || m_call.revealed_tiles@[idx] == (old(map).revealed_tiles@[idx]
                            || list_covers(*old(map), world.viewshed@[0]->Some_0.visible_tiles@, idx)));
                    }
                }
            }
        }
        e = e + 1;
    }
}

} // verus!
