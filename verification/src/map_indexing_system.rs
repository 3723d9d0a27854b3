//! The occupancy indexer: once per turn it rebuilds the map's `blocked`
//! classification (walls plus tiles under blocking actors) and the
//! `tile_content` index (which actors stand on which tile), from scratch,
//! so neither ever holds a stale entry.

use vstd::prelude::*;

use crate::map::{GameMap, TileType};
use crate::visibility_system::positions_in_bounds;
use crate::world::World;

verus! {

/// Actor `e` is alive, blocking, and standing on tile `idx`.
pub open spec fn blocker_at(w: World, m: GameMap, e: int, idx: int) -> bool {
    &&& 0 <= e < w.num()
    &&& w.alive@[e]
    &&& w.blocks_tile@[e]
    &&& w.position@[e] is Some
    &&& m.idx_of(w.position@[e]->Some_0.x as int, w.position@[e]->Some_0.y as int) == idx
}

/// Actor `e` is alive and standing on tile `idx`.
pub open spec fn occupant_at(w: World, m: GameMap, e: int, idx: int) -> bool {
    &&& 0 <= e < w.num()
    &&& w.alive@[e]
    &&& w.position@[e] is Some
    &&& m.idx_of(w.position@[e]->Some_0.x as int, w.position@[e]->Some_0.y as int) == idx
}

/// Standing-on facts read only the grid width from the map.
pub proof fn lemma_at_same_width(w: World, m1: GameMap, m2: GameMap, e: int, idx: int)
    requires
        m1.width == m2.width,
    ensures
        blocker_at(w, m1, e, idx) == blocker_at(w, m2, e, idx),
        occupant_at(w, m1, e, idx) == occupant_at(w, m2, e, idx),
{
}

/// Rebuild `blocked` and `tile_content` from the current actor positions:
/// a tile is blocked exactly when it is a wall or carries a blocking actor,
/// and a tile's content holds exactly the actors standing on it.
#[verifier::rlimit(60)]
pub fn run(map: &mut GameMap, world: &World)
    requires
        old(map).wf(),
        world.wf(),
        positions_in_bounds(*world, *old(map)),
    ensures
        final(map).wf(),
        final(map).tiles == old(map).tiles,
        final(map).rooms == old(map).rooms,
        final(map).width == old(map).width,
        final(map).height == old(map).height,
        final(map).depth == old(map).depth,
        final(map).revealed_tiles == old(map).revealed_tiles,
        final(map).visible_tiles == old(map).visible_tiles,
        forall|idx: int|
            0 <= idx < final(map).count() ==> #[trigger] final(map).blocked@[idx] == (final(map).tiles@[idx] == TileType::Wall || exists|e: int|
                blocker_at(*world, *final(map), e, idx)),
        forall|idx: int, e: usize|
            0 <= idx < final(map).count() ==> (#[trigger] final(map).tile_content@[idx]@.contains(
                e,
            ) <==> occupant_at(*world, *final(map), e as int, idx)),
        forall|idx: int|
            0 <= idx < final(map).count() ==> (#[trigger] final(map).tile_content@[idx]@).no_duplicates(),
{
    map.populate_blocked();
    map.clear_content_index();
    let n = world.len();
    let mut e: usize = 0;
    while e < n
        invariant
            map.wf(),
            world.wf(),
            positions_in_bounds(*world, *map),
            n == world.num(),
            e <= n,
            map.tiles == old(map).tiles,
            map.rooms == old(map).rooms,
            map.width == old(map).width,
            map.height == old(map).height,
            map.depth == old(map).depth,
            map.revealed_tiles == old(map).revealed_tiles,
            map.visible_tiles == old(map).visible_tiles,
            forall|idx: int|
                0 <= idx < map.count() ==> #[trigger] map.blocked@[idx] == (map.tiles@[idx]
                    == TileType::Wall || exists|e2: int|
                    e2 < e && blocker_at(*world, *map, e2, idx)),
            forall|idx: int, e2: usize|
                0 <= idx < map.count() ==> (#[trigger] map.tile_content@[idx]@.contains(e2) <==> (
                e2 < e && occupant_at(*world, *map, e2 as int, idx))),
            forall|idx: int, k: int|
                0 <= idx < map.count() && 0 <= k < map.tile_content@[idx]@.len()
                    ==> (#[trigger] map.tile_content@[idx]@[k] as int) < e,
            forall|idx: int|
                0 <= idx < map.count() ==> (#[trigger] map.tile_content@[idx]@).no_duplicates(),
        decreases n - e,
    {
        let pos_opt = world.position[e];
        let ghost m_pre = *map;
        if world.alive[e] && pos_opt.is_some() {
            let p = pos_opt.unwrap();
            let idx = map.xy_idx(p.x, p.y);
            if world.blocks_tile[e] {
                map.blocked[idx] = true;
                proof {
                    assert(blocker_at(*world, *map, e as int, idx as int));
                }
            }
            map.tile_content[idx].push(e);
            proof {
                assert(map.tile_content@[idx as int]@ == m_pre.tile_content@[idx as int]@.push(e));
                assert forall|idx2: int|
                    0 <= idx2 < map.count() implies (
                #[trigger] map.tile_content@[idx2]@).no_duplicates() by {
                    if idx2 == idx {
                        let sq = map.tile_content@[idx2]@;
                        let sq0 = m_pre.tile_content@[idx2]@;
                        assert forall|a: int, b: int| 0 <= a < b < sq.len() implies sq[a]
                            != sq[b] by {
                            if b < sq0.len() {
                                assert(sq[a] == sq0[a] && sq[b] == sq0[b]);
                                assert(sq0.no_duplicates());
                            } else {
                                assert(sq[b] == e);
                                assert(sq[a] == sq0[a]);
                                assert((sq0[a] as int) < e as int);
                            }
                        }
                    } else {
                        assert(map.tile_content@[idx2] == m_pre.tile_content@[idx2]);
                    }
                }
                assert(occupant_at(*world, *map, e as int, idx as int));
                assert forall|idx2: int, e2: usize| 0 <= idx2 < map.count() implies (
                #[trigger] map.tile_content@[idx2]@.contains(e2) <==> (e2 < e + 1 && occupant_at(
                    *world,
                    *map,
                    e2 as int,
                    idx2,
                ))) by {
                    lemma_at_same_width(*world, m_pre, *map, e2 as int, idx2);
                    if idx2 == idx {
                        if map.tile_content@[idx2]@.contains(e2) {
                            if e2 == e {
                            } else {
                                let kk = choose|kk: int|
                                    0 <= kk < map.tile_content@[idx2]@.len()
                                        && map.tile_content@[idx2]@[kk] == e2;
                                if kk < m_pre.tile_content@[idx2]@.len() {
                                    assert(m_pre.tile_content@[idx2]@[kk] == e2);
                                    assert(m_pre.tile_content@[idx2]@.contains(e2));
                                }
                            }
                        }
                        if e2 < e + 1 && occupant_at(*world, *map, e2 as int, idx2) {
                            if e2 == e {
                                assert(map.tile_content@[idx2]@.last() == e);
                                assert(map.tile_content@[idx2]@.contains(e2));
                            } else {
                                assert(m_pre.tile_content@[idx2]@.contains(e2));
                                let kk = choose|kk: int|
                                    0 <= kk < m_pre.tile_content@[idx2]@.len()
                                        && m_pre.tile_content@[idx2]@[kk] == e2;
                                assert(map.tile_content@[idx2]@[kk] == e2);
                                assert(map.tile_content@[idx2]@.contains(e2));
                            }
                        }
                    } else {
                        assert(map.tile_content@[idx2] == m_pre.tile_content@[idx2]);
                    }
                }
            }
        } else {
            proof {
                assert forall|idx2: int, e2: usize| 0 <= idx2 < map.count() implies (
                #[trigger] map.tile_content@[idx2]@.contains(e2) <==> (e2 < e + 1 && occupant_at(
                    *world,
                    *map,
                    e2 as int,
                    idx2,
                ))) by {
                    assert(!occupant_at(*world, *map, e as int, idx2));
                }
            }
        }
        proof {
            assert forall|idx2: int| 0 <= idx2 < map.count() implies #[trigger] map.blocked@[idx2]
                == (map.tiles@[idx2] == TileType::Wall || exists|e2: int|
                e2 < e + 1 && blocker_at(*world, *map, e2, idx2)) by {
                if map.blocked@[idx2] {
                    if m_pre.blocked@[idx2] {
                        if !(map.tiles@[idx2] == TileType::Wall) {
                            let e2 = choose|e2: int| e2 < e && blocker_at(*world, m_pre, e2, idx2);
                            lemma_at_same_width(*world, m_pre, *map, e2, idx2);
                            assert(blocker_at(*world, *map, e2, idx2));
                        }
                    } else {
                        assert(blocker_at(*world, *map, e as int, idx2));
                    }
                } else {
                    assert(!m_pre.blocked@[idx2]);
                    assert forall|e2: int| !(e2 < e + 1 && blocker_at(*world, *map, e2, idx2)) by {
                        lemma_at_same_width(*world, m_pre, *map, e2, idx2);
                        if e2 < e {
                            assert(!blocker_at(*world, m_pre, e2, idx2));
                        }
                    }
                }
            }
        }
        e = e + 1;
    }
}

} // verus!
