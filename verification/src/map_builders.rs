//! Dungeon building. A builder produces a map and the player's starting
//! position for a depth, and then spawns that level's actors; the one
//! strategy here places non-overlapping rooms and joins consecutive room
//! centers with L-shaped corridors.

use vstd::prelude::*;

use crate::map::{spec_max, GameMap, TileType, MAPHEIGHT, MAPWIDTH};
use crate::world::World;
use crate::rect::Rect;
use crate::rect::lemma_center_carved;
use crate::reach::{
    lemma_floor_mask_at, lemma_horizontal_reach, lemma_mask_monotone_from_tiles,
    lemma_reach_monotone, lemma_reach_refl, lemma_reach_trans, lemma_vertical_reach, reachable,
};
use crate::rng::{spec_next, spec_range, spec_roll, Rng};
use crate::components::{CombatStats, Position};

verus! {

pub const MAX_ROOMS: i32 = 30;
pub const MIN_SIZE: i32 = 6;
pub const MAX_SIZE: i32 = 10;

/// The candidate rectangle the generator derives from rng state `s`: two
/// extent draws, then an origin die per axis.
pub open spec fn proposed_room(s: u32) -> Rect {
    let pw = spec_range(s, MIN_SIZE as int, MAX_SIZE as int);
    let s1 = spec_next(s);
    let ph = spec_range(s1, MIN_SIZE as int, MAX_SIZE as int);
    let s2 = spec_next(s1);
    let px = spec_roll(s2, 1, MAPWIDTH - pw - 1) - 1;
    let s3 = spec_next(s2);
    let py = spec_roll(s3, 1, MAPHEIGHT - ph - 1) - 1;
    Rect { x1: px as i32, y1: py as i32, x2: (px + pw) as i32, y2: (py + ph) as i32 }
}

/// The rng state after the four draws of one room proposal.
pub open spec fn state_after_proposal(s: u32) -> u32 {
    spec_next(spec_next(spec_next(spec_next(s))))
}

/// Extent bounds of an accepted room, as drawn: each side between
/// `MIN_SIZE` and `MAX_SIZE - 1` tiles.
pub open spec fn room_extent_ok(r: Rect) -> bool {
    &&& MIN_SIZE <= r.x2 - r.x1 < MAX_SIZE
    &&& MIN_SIZE <= r.y2 - r.y1 < MAX_SIZE
}

/// A freshly spawned monster row: alive, tagged and blocking, standing on
/// the carved floor at its room's center, watching with a dirty range-8
/// viewshed, holding one of the two monster stat blocks and nothing else.
pub open spec fn spawned_monster_at(w: World, id: int, m: GameMap, r: Rect) -> bool {
    &&& 0 <= id < w.num()
    &&& w.alive@[id]
    &&& !w.player@[id]
    &&& w.monster@[id]
    &&& w.blocks_tile@[id]
    &&& w.position@[id] == Option::Some(
        Position { x: r.spec_center().0 as i32, y: r.spec_center().1 as i32 },
    )
    &&& m.is_floor(r.spec_center().0, r.spec_center().1)
    &&& w.viewshed@[id] is Some
    &&& w.viewshed@[id]->Some_0.range == 8
    &&& w.viewshed@[id]->Some_0.dirty
    &&& (w.combat_stats@[id] == Option::Some(
        CombatStats { max_hp: 3, hp: 3, defense: 1, power: 3 },
    ) || w.combat_stats@[id] == Option::Some(
        CombatStats { max_hp: 6, hp: 6, defense: 2, power: 3 },
    ))
    &&& w.wants_to_melee@[id] is None
    &&& w.suffer_damage@[id] is None
}

/// A room that fits the level: inside the outer wall ring, and wide and tall
/// enough that its center lies in its carved interior.
pub open spec fn room_ok(r: Rect, w: int, h: int) -> bool {
    &&& 0 <= r.x1
    &&& 0 <= r.y1
    &&& r.x1 + 2 <= r.x2
    &&& r.y1 + 2 <= r.y2
    &&& r.x2 <= w - 2
    &&& r.y2 <= h - 2
}

/// No two rooms overlap or even touch, so their carved regions are disjoint
/// with a one-tile wall between them.
pub open spec fn rooms_separated(rooms: Seq<Rect>) -> bool {
    forall|i: int, j: int|
        0 <= i < j < rooms.len() ==> !(#[trigger] rooms[i]).spec_intersect(#[trigger] rooms[j])
}

/// Every carved tile of every room is floor on the map.
pub open spec fn rooms_carved(m: GameMap, rooms: Seq<Rect>) -> bool {
    forall|i: int, x: int, y: int|
        0 <= i < rooms.len() && #[trigger] rooms[i].carved(x, y) ==> m.is_floor(x, y)
}

/// Every room's center is reachable from the first room's center over floor.
pub open spec fn rooms_connected(m: GameMap, rooms: Seq<Rect>) -> bool {
    forall|i: int|
        0 <= i < rooms.len() ==> reachable(
            m.width as int,
            m.height as int,
            m.floor_mask(),
            rooms[0].spec_center(),
            (#[trigger] rooms[i]).spec_center(),
        )
}

/// Carving more floor never breaks what was already carved or connected.
pub proof fn lemma_carve_preserves(m1: GameMap, m2: GameMap, rooms: Seq<Rect>)
    requires
        m1.wf(),
        m2.wf(),
        m1.width == m2.width,
        m1.height == m2.height,
        forall|x: int, y: int|
            m1.in_bounds(x, y) && m1.is_floor(x, y) ==> #[trigger] m2.is_floor(x, y),
        rooms_carved(m1, rooms),
        rooms_connected(m1, rooms),
    ensures
        rooms_carved(m2, rooms),
        rooms_connected(m2, rooms),
{
    let w = m1.width as int;
    let h = m1.height as int;
    assert forall|i: int, x: int, y: int|
        0 <= i < rooms.len() && #[trigger] rooms[i].carved(x, y) implies m2.is_floor(x, y) by {
        assert(m1.is_floor(x, y));
    }
    lemma_mask_monotone_from_tiles(m1, m2);
    assert forall|i: int| 0 <= i < rooms.len() implies reachable(
        w,
        h,
        m2.floor_mask(),
        rooms[0].spec_center(),
        (#[trigger] rooms[i]).spec_center(),
    ) by {
        crate::map::lemma_count_bound(w, h);
        lemma_reach_monotone(
            w,
            h,
            m1.floor_mask(),
            m2.floor_mask(),
            rooms[0].spec_center(),
            rooms[i].spec_center(),
        );
    }
}

/// Within one fully carved room, every interior tile is reachable from the
/// room's center: go along the center's row, then along the target's column.
pub proof fn lemma_room_interior_reach(m: GameMap, r: Rect, x: int, y: int)
    requires
        m.wf(),
        room_ok(r, m.width as int, m.height as int),
        forall|xx: int, yy: int| (#[trigger] r.carved(xx, yy)) ==> m.is_floor(xx, yy),
        r.carved(x, y),
    ensures
        reachable(m.width as int, m.height as int, m.floor_mask(), r.spec_center(), (x, y)),
{
    let w = m.width as int;
    let h = m.height as int;
    let c = r.spec_center();
    lemma_center_carved(r);
    assert forall|xx: int|
        crate::map::spec_min(c.0, x) <= xx <= crate::map::spec_max(c.0, x) implies
        crate::reach::passable_at(w, h, m.floor_mask(), (xx, c.1)) by {
        assert(r.carved(xx, c.1));
        assert(m.is_floor(xx, c.1));
        lemma_floor_mask_at(m, xx, c.1);
    }
    lemma_horizontal_reach(w, h, m.floor_mask(), c.1, c.0, x);
    assert forall|yy: int|
        crate::map::spec_min(c.1, y) <= yy <= crate::map::spec_max(c.1, y) implies
        crate::reach::passable_at(w, h, m.floor_mask(), (x, yy)) by {
        assert(r.carved(x, yy));
        assert(m.is_floor(x, yy));
        lemma_floor_mask_at(m, x, yy);
    }
    lemma_vertical_reach(w, h, m.floor_mask(), x, c.1, y);
    lemma_reach_trans(w, h, m.floor_mask(), c, (x, c.1), (x, y));
}

/// Every carved floor tile of every room of a generated map is reachable
/// from the first room's center: corridor connectivity holds transitively.
pub proof fn lemma_rooms_fully_connected(m: GameMap, i: int, x: int, y: int)
    requires
        m.wf(),
        forall|j: int|
            0 <= j < m.rooms@.len() ==> room_ok(
                #[trigger] m.rooms@[j],
                m.width as int,
                m.height as int,
            ),
        rooms_carved(m, m.rooms@),
        rooms_connected(m, m.rooms@),
        0 <= i < m.rooms@.len(),
        m.rooms@[i].carved(x, y),
    ensures
        reachable(
            m.width as int,
            m.height as int,
            m.floor_mask(),
            m.rooms@[0].spec_center(),
            (x, y),
        ),
{
    let r = m.rooms@[i];
    assert forall|xx: int, yy: int| (#[trigger] r.carved(xx, yy)) implies m.is_floor(xx, yy) by {
        assert(rooms_carved(m, m.rooms@));
        assert(m.rooms@[i].carved(xx, yy));
    }
    lemma_room_interior_reach(m, r, x, y);
    lemma_reach_trans(
        m.width as int,
        m.height as int,
        m.floor_mask(),
        m.rooms@[0].spec_center(),
        r.spec_center(),
        (x, y),
    );
}

/// What carving one room does to the running generator facts: everything
/// already carved or connected stays so, and the new room is now open floor.
pub proof fn lemma_carve_room_effect(m1: GameMap, m2: GameMap, rooms: Seq<Rect>, nr: Rect)
    requires
        m1.wf(),
        m2.wf(),
        m2.width == m1.width,
        m2.height == m1.height,
        room_ok(nr, m1.width as int, m1.height as int),
        forall|x: int, y: int| #![trigger m1.in_bounds(x, y)]
            m1.in_bounds(x, y) ==> m2.tile_at(x, y) == (if nr.carved(x, y) {
                crate::map::TileType::Floor
            } else {
                m1.tile_at(x, y)
            }),
        rooms_carved(m1, rooms),
        rooms_connected(m1, rooms),
    ensures
        rooms_carved(m2, rooms),
        rooms_connected(m2, rooms),
        forall|x: int, y: int| #[trigger] nr.carved(x, y) ==> m2.is_floor(x, y),
        forall|x: int, y: int|
            m1.in_bounds(x, y) && m1.is_floor(x, y) ==> #[trigger] m2.is_floor(x, y),
{
    assert forall|x: int, y: int|
        m1.in_bounds(x, y) && m1.is_floor(x, y) implies #[trigger] m2.is_floor(x, y) by {}
    lemma_carve_preserves(m1, m2, rooms);
    assert forall|x: int, y: int| #[trigger] nr.carved(x, y) implies m2.is_floor(x, y) by {
        assert(m1.in_bounds(x, y));
    }
}

/// After the corridor to the previous room is carved, the new room is still
/// floor and its center is reachable from the first room's center.
pub proof fn lemma_after_connect(m1: GameMap, m2: GameMap, rooms: Seq<Rect>, nr: Rect, prev: Rect)
    requires
        m1.wf(),
        m2.wf(),
        m2.width == m1.width,
        m2.height == m1.height,
        forall|x: int, y: int|
            m1.in_bounds(x, y) && m1.is_floor(x, y) ==> #[trigger] m2.is_floor(x, y),
        rooms_carved(m1, rooms),
        rooms_connected(m1, rooms),
        forall|x: int, y: int| #[trigger] nr.carved(x, y) ==> m1.is_floor(x, y),
        room_ok(nr, m1.width as int, m1.height as int),
        rooms.len() > 0,
        prev == rooms[rooms.len() - 1],
        reachable(
            m2.width as int,
            m2.height as int,
            m2.floor_mask(),
            prev.spec_center(),
            nr.spec_center(),
        ),
    ensures
        rooms_carved(m2, rooms),
        rooms_connected(m2, rooms),
        forall|x: int, y: int| #[trigger] nr.carved(x, y) ==> m2.is_floor(x, y),
        reachable(
            m2.width as int,
            m2.height as int,
            m2.floor_mask(),
            rooms[0].spec_center(),
            nr.spec_center(),
        ),
{
    lemma_carve_preserves(m1, m2, rooms);
    assert forall|x: int, y: int| #[trigger] nr.carved(x, y) implies m2.is_floor(x, y) by {
        assert(nr.carved(x, y) ==> m1.is_floor(x, y));
        assert(m1.in_bounds(x, y));
    }
    assert(reachable(
        m2.width as int,
        m2.height as int,
        m2.floor_mask(),
        rooms[0].spec_center(),
        (rooms[rooms.len() - 1]).spec_center(),
    ));
    lemma_reach_trans(
        m2.width as int,
        m2.height as int,
        m2.floor_mask(),
        rooms[0].spec_center(),
        prev.spec_center(),
        nr.spec_center(),
    );
}

/// Appending an accepted, carved, connected room keeps the whole room list
/// separated, carved and connected.
pub proof fn lemma_accept_room(m: GameMap, rooms0: Seq<Rect>, nr: Rect)
    requires
        m.wf(),
        forall|i: int|
            0 <= i < rooms0.len() ==> room_ok(#[trigger] rooms0[i], m.width as int, m.height as int),
        room_ok(nr, m.width as int, m.height as int),
        rooms_separated(rooms0),
        rooms_carved(m, rooms0),
        rooms_connected(m, rooms0),
        forall|x: int, y: int| #[trigger] nr.carved(x, y) ==> m.is_floor(x, y),
        forall|j: int| 0 <= j < rooms0.len() ==> !nr.spec_intersect(#[trigger] rooms0[j]),
        rooms0.len() > 0 ==> reachable(
            m.width as int,
            m.height as int,
            m.floor_mask(),
            rooms0[0].spec_center(),
            nr.spec_center(),
        ),
    ensures
        forall|i: int|
            0 <= i < rooms0.push(nr).len() ==> room_ok(
                #[trigger] rooms0.push(nr)[i],
                m.width as int,
                m.height as int,
            ),
        rooms_separated(rooms0.push(nr)),
        rooms_carved(m, rooms0.push(nr)),
        rooms_connected(m, rooms0.push(nr)),
{
    let rs = rooms0.push(nr);
    let n = rooms0.len() as int;
    assert forall|i2: int| 0 <= i2 < rs.len() implies room_ok(
        #[trigger] rs[i2],
        m.width as int,
        m.height as int,
    ) by {
        if i2 < n {
            assert(rs[i2] == rooms0[i2]);
        } else {
            assert(rs[i2] == nr);
        }
    }
    assert forall|i2: int, j2: int| 0 <= i2 < j2 < rs.len() implies !(#[trigger] rs[i2]).spec_intersect(
        #[trigger] rs[j2],
    ) by {
        if j2 < n {
            assert(rooms0[i2] == rs[i2] && rooms0[j2] == rs[j2]);
        } else {
            assert(rs[j2] == nr);
            assert(rs[i2] == rooms0[i2]);
            assert(!nr.spec_intersect(rooms0[i2]));
        }
    }
    assert forall|i2: int, x2: int, y2: int|
        0 <= i2 < rs.len() && #[trigger] rs[i2].carved(x2, y2) implies m.is_floor(x2, y2) by {
        if i2 < n {
            assert(rooms0[i2].carved(x2, y2));
        } else {
            assert(rs[i2] == nr);
        }
    }
    assert forall|i2: int| 0 <= i2 < rs.len() implies reachable(
        m.width as int,
        m.height as int,
        m.floor_mask(),
        rs[0].spec_center(),
        (#[trigger] rs[i2]).spec_center(),
    ) by {
        if n == 0 {
            lemma_reach_refl(m.width as int, m.height as int, m.floor_mask(), nr.spec_center());
        } else {
            assert(rs[0] == rooms0[0]);
            if i2 < n {
                assert(reachable(
                    m.width as int,
                    m.height as int,
                    m.floor_mask(),
                    rooms0[0].spec_center(),
                    rooms0[i2].spec_center(),
                ));
            }
        }
    }
}

/// Join two in-bounds tile positions with an L-shaped corridor: one
/// horizontal and one vertical run, bending at whichever corner `coin`
/// picks. Carving only adds floor, and afterwards the two positions are
/// mutually reachable over floor.
#[verifier::rlimit(60)]
pub fn connect_centers(map: &mut GameMap, px: i32, py: i32, nx: i32, ny: i32, coin: i32)
    requires
        old(map).wf(),
        0 <= px < old(map).width,
        0 <= nx < old(map).width,
        0 <= py < old(map).height,
        0 <= ny < old(map).height,
    ensures
        final(map).wf(),
        final(map).width == old(map).width,
        final(map).height == old(map).height,
        final(map).depth == old(map).depth,
        final(map).rooms == old(map).rooms,
        final(map).revealed_tiles == old(map).revealed_tiles,
        final(map).visible_tiles == old(map).visible_tiles,
        final(map).blocked == old(map).blocked,
        final(map).tile_content == old(map).tile_content,
        forall|x: int, y: int|
            old(map).in_bounds(x, y) && old(map).is_floor(x, y)
                ==> #[trigger] final(map).is_floor(x, y),
        reachable(
            final(map).width as int,
            final(map).height as int,
            final(map).floor_mask(),
            (px as int, py as int),
            (nx as int, ny as int),
        ),
{
    let ghost m_b = *map;
    if coin == 1 {
        map.apply_horizontal_tunnel(px, nx, py);
        let ghost m_c = *map;
        map.apply_vertical_tunnel(py, ny, nx);
        proof {
            assert forall|xx: int, yy: int|
                m_b.in_bounds(xx, yy) && m_b.is_floor(xx, yy) implies #[trigger] map.is_floor(
                xx,
                yy,
            ) by {
                assert(m_c.in_bounds(xx, yy));
                assert(m_c.is_floor(xx, yy));
            }
            let wi = map.width as int;
            let hi = map.height as int;
            assert forall|xx: int|
                crate::map::spec_min(px as int, nx as int) <= xx <= crate::map::spec_max(
                px as int,
                nx as int,
            ) implies crate::reach::passable_at(wi, hi, map.floor_mask(), (xx, py as int)) by {
                assert(m_b.in_bounds(xx, py as int));
                assert(m_c.is_floor(xx, py as int));
                assert(map.is_floor(xx, py as int));
                lemma_floor_mask_at(*map, xx, py as int);
            }
            lemma_horizontal_reach(wi, hi, map.floor_mask(), py as int, px as int, nx as int);
            assert forall|yy: int|
                crate::map::spec_min(py as int, ny as int) <= yy <= crate::map::spec_max(
                py as int,
                ny as int,
            ) implies crate::reach::passable_at(wi, hi, map.floor_mask(), (nx as int, yy)) by {
                assert(m_c.in_bounds(nx as int, yy));
                assert(map.is_floor(nx as int, yy));
                lemma_floor_mask_at(*map, nx as int, yy);
            }
            lemma_vertical_reach(wi, hi, map.floor_mask(), nx as int, py as int, ny as int);
            lemma_reach_trans(
                wi,
                hi,
                map.floor_mask(),
                (px as int, py as int),
                (nx as int, py as int),
                (nx as int, ny as int),
            );
        }
    } else {
        map.apply_vertical_tunnel(py, ny, px);
        let ghost m_c = *map;
        map.apply_horizontal_tunnel(px, nx, ny);
        proof {
            assert forall|xx: int, yy: int|
                m_b.in_bounds(xx, yy) && m_b.is_floor(xx, yy) implies #[trigger] map.is_floor(
                xx,
                yy,
            ) by {
                assert(m_c.in_bounds(xx, yy));
                assert(m_c.is_floor(xx, yy));
            }
            let wi = map.width as int;
            let hi = map.height as int;
            assert forall|yy: int|
                crate::map::spec_min(py as int, ny as int) <= yy <= crate::map::spec_max(
                py as int,
                ny as int,
            ) implies crate::reach::passable_at(wi, hi, map.floor_mask(), (px as int, yy)) by {
                assert(m_b.in_bounds(px as int, yy));
                assert(m_c.is_floor(px as int, yy));
                assert(map.is_floor(px as int, yy));
                lemma_floor_mask_at(*map, px as int, yy);
            }
            lemma_vertical_reach(wi, hi, map.floor_mask(), px as int, py as int, ny as int);
            assert forall|xx: int|
                crate::map::spec_min(px as int, nx as int) <= xx <= crate::map::spec_max(
                px as int,
                nx as int,
            ) implies crate::reach::passable_at(wi, hi, map.floor_mask(), (xx, ny as int)) by {
                assert(m_c.in_bounds(xx, ny as int));
                assert(map.is_floor(xx, ny as int));
                lemma_floor_mask_at(*map, xx, ny as int);
            }
            lemma_horizontal_reach(wi, hi, map.floor_mask(), ny as int, px as int, nx as int);
            lemma_reach_trans(
                wi,
                hi,
                map.floor_mask(),
                (px as int, py as int),
                (px as int, ny as int),
                (nx as int, ny as int),
            );
        }
    }
}

/// True when the candidate touches or overlaps no accepted room.
pub fn candidate_fits(rooms: &Vec<Rect>, new_room: &Rect) -> (ok: bool)
    ensures
        ok <==> forall|j: int|
            0 <= j < rooms@.len() ==> !new_room.spec_intersect(#[trigger] rooms@[j]),
{
    let mut ok = true;
    let mut i: usize = 0;
    while i < rooms.len()
        invariant
            i <= rooms@.len(),
            ok <==> forall|j: int| 0 <= j < i ==> !new_room.spec_intersect(#[trigger] rooms@[j]),
        decreases rooms@.len() - i,
    {
        let ghost ok0 = ok;
        if new_room.intersect(&rooms[i]) {
            ok = false;
        }
        proof {
            if ok {
                assert forall|j: int| 0 <= j <= i implies !new_room.spec_intersect(
                    #[trigger] rooms@[j],
                ) by {}
            }
        }
        i = i + 1;
    }
    ok
}

/// Carve an accepted room, join it to the previous room when there is one,
/// and append it to the accepted list, keeping every generator fact.
#[verifier::rlimit(100)]
pub fn accept_room(map: &mut GameMap, rooms: &mut Vec<Rect>, rng: &mut Rng, new_room: Rect)
    requires
        old(rng).wf(),
        old(map).wf(),
        room_ok(new_room, old(map).width as int, old(map).height as int),
        forall|i: int|
            0 <= i < old(rooms)@.len() ==> room_ok(
                #[trigger] old(rooms)@[i],
                old(map).width as int,
                old(map).height as int,
            ),
        rooms_separated(old(rooms)@),
        rooms_carved(*old(map), old(rooms)@),
        rooms_connected(*old(map), old(rooms)@),
        forall|j: int|
            0 <= j < old(rooms)@.len() ==> !new_room.spec_intersect(#[trigger] old(rooms)@[j]),
    ensures
        final(rng).wf(),
        final(map).wf(),
        final(map).width == old(map).width,
        final(map).height == old(map).height,
        final(map).depth == old(map).depth,
        final(map).rooms == old(map).rooms,
        final(map).revealed_tiles == old(map).revealed_tiles,
        final(map).visible_tiles == old(map).visible_tiles,
        final(map).blocked == old(map).blocked,
        final(map).tile_content == old(map).tile_content,
        final(rooms)@.len() == old(rooms)@.len() + 1,
        final(rooms)@ == old(rooms)@.push(new_room),
        final(rng).state == (if old(rooms)@.len() > 0 {
            spec_next(old(rng).state)
        } else {
            old(rng).state
        }),
        forall|i: int|
            0 <= i < final(rooms)@.len() ==> room_ok(
                #[trigger] final(rooms)@[i],
                final(map).width as int,
                final(map).height as int,
            ),
        rooms_separated(final(rooms)@),
        rooms_carved(*final(map), final(rooms)@),
        rooms_connected(*final(map), final(rooms)@),
{
    let ghost m_a = *map;
    map.apply_room_to_map(&new_room);
    proof {
        lemma_carve_room_effect(m_a, *map, rooms@, new_room);
    }
    if rooms.len() > 0 {
        let c_new = new_room.center();
        let last = rooms.len() - 1;
        let prev_room = rooms[last];
        proof {
            lemma_center_carved(new_room);
            lemma_center_carved(prev_room);
        }
        let c_prev = prev_room.center();
        let coin = rng.range(0, 2);
        let ghost m_b = *map;
        connect_centers(map, c_prev.0, c_prev.1, c_new.0, c_new.1, coin);
        proof {
            lemma_after_connect(m_b, *map, rooms@, new_room, prev_room);
        }
    }
    let ghost rooms_before = rooms@;
    rooms.push(new_room);
    proof {
        lemma_accept_room(*map, rooms_before, new_room);
        assert(rooms@ == rooms_before.push(new_room));
    }
}

/// Propose one room and accept it if it touches no accepted room. The first
/// proposal is always accepted, so one call on an empty room list always
/// places a room.
/// Draw one candidate room from the rng: the exact rectangle
/// `proposed_room` computes from the entry state.
#[verifier::rlimit(100)]
#[verifier::spinoff_prover]
pub fn propose_candidate(rng: &mut Rng) -> (r: Rect)
    requires
        old(rng).wf(),
    ensures
        final(rng).wf(),
        r == proposed_room(old(rng).state),
        final(rng).state == state_after_proposal(old(rng).state),
        room_ok(r, MAPWIDTH as int, MAPHEIGHT as int),
        room_extent_ok(r),
{
    let w = rng.range(MIN_SIZE, MAX_SIZE);
    let h = rng.range(MIN_SIZE, MAX_SIZE);
    let x = rng.roll_dice(1, MAPWIDTH - w - 1) - 1;
    let y = rng.roll_dice(1, MAPHEIGHT - h - 1) - 1;
    let new_room = Rect::new(x, y, w, h);
    proof {
        let s0 = old(rng).state;
        let cand = proposed_room(s0);
        crate::rng::lemma_state_after_snoc(spec_next(spec_next(s0)), 0);
        crate::rng::lemma_state_after_snoc(spec_next(spec_next(spec_next(s0))), 0);
        assert(w == spec_range(s0, MIN_SIZE as int, MAX_SIZE as int));
        assert(h == spec_range(spec_next(s0), MIN_SIZE as int, MAX_SIZE as int));
        assert(x == spec_roll(spec_next(spec_next(s0)), 1, MAPWIDTH - w - 1) - 1);
        assert(y == spec_roll(spec_next(spec_next(spec_next(s0))), 1, MAPHEIGHT - h - 1) - 1);
        assert(new_room.x1 == cand.x1 && new_room.y1 == cand.y1 && new_room.x2 == cand.x2
            && new_room.y2 == cand.y2);
        assert(new_room == cand);
        assert(room_extent_ok(new_room));
        assert(rng.state == state_after_proposal(s0));
    }
    new_room
}

#[verifier::rlimit(100)]
#[verifier::spinoff_prover]
pub fn try_add_room(map: &mut GameMap, rooms: &mut Vec<Rect>, rng: &mut Rng)
    requires
        old(rng).wf(),
        old(map).wf(),
        old(map).width == MAPWIDTH,
        old(map).height == MAPHEIGHT,
        forall|i: int|
            0 <= i < old(rooms)@.len() ==> room_ok(
                #[trigger] old(rooms)@[i],
                old(map).width as int,
                old(map).height as int,
            ),
        rooms_separated(old(rooms)@),
        rooms_carved(*old(map), old(rooms)@),
        rooms_connected(*old(map), old(rooms)@),
    ensures
        final(rng).wf(),
        final(map).wf(),
        final(map).width == old(map).width,
        final(map).height == old(map).height,
        final(map).depth == old(map).depth,
        final(map).rooms == old(map).rooms,
        final(map).revealed_tiles == old(map).revealed_tiles,
        final(map).visible_tiles == old(map).visible_tiles,
        final(map).blocked == old(map).blocked,
        final(map).tile_content == old(map).tile_content,
        old(rooms)@.len() <= final(rooms)@.len() <= old(rooms)@.len() + 1,
        old(rooms)@.len() == 0 ==> final(rooms)@.len() == 1,
        forall|i: int|
            0 <= i < final(rooms)@.len() ==> room_ok(
                #[trigger] final(rooms)@[i],
                final(map).width as int,
                final(map).height as int,
            ),
        rooms_separated(final(rooms)@),
        rooms_carved(*final(map), final(rooms)@),
        rooms_connected(*final(map), final(rooms)@),
        ({
            let cand = proposed_room(old(rng).state);
            if forall|j: int| 0 <= j < old(rooms)@.len() ==> !cand.spec_intersect(
                #[trigger] old(rooms)@[j],
            ) {
                final(rooms)@ == old(rooms)@.push(cand) && room_extent_ok(cand) && final(rng).state == (if old(rooms)@.len() > 0 {
                    spec_next(state_after_proposal(old(rng).state))
                } else {
                    state_after_proposal(old(rng).state)
                })
            } else {
                final(rooms)@ == old(rooms)@ && *final(map) == *old(map) && final(rng).state
                    == state_after_proposal(old(rng).state)
            }
        }),
{
    let new_room = propose_candidate(rng);
    let ok = candidate_fits(rooms, &new_room);
    if ok {
        accept_room(map, rooms, rng, new_room);
    }
}

/// The room-and-corridor generator: propose up to `MAX_ROOMS` rooms with
/// bounded random extent and origin, keep those that touch no earlier room,
/// and join consecutive room centers with L-shaped corridors. A level always
/// has at least one room; the player starts at the first room's center.
pub fn new_map_rooms_and_corridors(rng: &mut Rng, new_depth: i32) -> (r: (GameMap, Position))
    requires
        old(rng).wf(),
    ensures
        final(rng).wf(),
        r.0.wf(),
        r.0.width == MAPWIDTH,
        r.0.height == MAPHEIGHT,
        r.0.depth == new_depth,
        1 <= r.0.rooms@.len() <= MAX_ROOMS,
        forall|i: int|
            0 <= i < r.0.rooms@.len() ==> room_ok(
                #[trigger] r.0.rooms@[i],
                r.0.width as int,
                r.0.height as int,
            ),
        forall|i: int| 0 <= i < r.0.rooms@.len() ==> room_extent_ok(#[trigger] r.0.rooms@[i]),
        rooms_separated(r.0.rooms@),
        rooms_carved(r.0, r.0.rooms@),
        rooms_connected(r.0, r.0.rooms@),
        (r.1.x as int, r.1.y as int) == r.0.rooms@[0].spec_center(),
        r.0.is_floor(r.1.x as int, r.1.y as int),
        forall|i: int|
            0 <= i < r.0.count() ==> #[trigger] r.0.blocked@[i] == (r.0.tiles@[i]
                == TileType::Wall),
        forall|i: int| 0 <= i < r.0.count() ==> !(#[trigger] r.0.revealed_tiles@[i]),
        forall|i: int| 0 <= i < r.0.count() ==> !(#[trigger] r.0.visible_tiles@[i]),
        forall|i: int| 0 <= i < r.0.count() ==> (#[trigger] r.0.tile_content@[i])@.len() == 0,
{
    let mut map = GameMap::new(new_depth);
    let mut rooms: Vec<Rect> = Vec::new();
    let mut attempt: i32 = 0;
    while attempt < MAX_ROOMS
        invariant
            rng.wf(),
            map.wf(),
            map.width == MAPWIDTH,
            map.height == MAPHEIGHT,
            map.depth == new_depth,
            map.rooms@.len() == 0,
            forall|i: int| 0 <= i < map.count() ==> !(#[trigger] map.revealed_tiles@[i]),
            forall|i: int| 0 <= i < map.count() ==> !(#[trigger] map.visible_tiles@[i]),
            forall|i: int| 0 <= i < map.count() ==> (#[trigger] map.tile_content@[i])@.len() == 0,
            0 <= attempt <= MAX_ROOMS,
            rooms@.len() <= attempt,
            attempt >= 1 ==> rooms@.len() >= 1,
            forall|i: int|
                0 <= i < rooms@.len() ==> room_ok(
                    #[trigger] rooms@[i],
                    map.width as int,
                    map.height as int,
                ),
            forall|i: int| 0 <= i < rooms@.len() ==> room_extent_ok(#[trigger] rooms@[i]),
            rooms_separated(rooms@),
            rooms_carved(map, rooms@),
            rooms_connected(map, rooms@),
        decreases MAX_ROOMS - attempt,
    {
        try_add_room(&mut map, &mut rooms, rng);
        attempt = attempt + 1;
    }
    let ghost m_b2 = map;
    map.populate_blocked();
    proof {
        assert(map.tiles == m_b2.tiles);
        assert forall|i: int, x: int, y: int|
            0 <= i < rooms@.len() && #[trigger] rooms@[i].carved(x, y) implies map.is_floor(
            x,
            y,
        ) by {
            assert(m_b2.is_floor(x, y));
        }
        assert forall|i: int| 0 <= i < rooms@.len() implies reachable(
            map.width as int,
            map.height as int,
            map.floor_mask(),
            rooms@[0].spec_center(),
            (#[trigger] rooms@[i]).spec_center(),
        ) by {
            assert(map.floor_mask() =~= m_b2.floor_mask());
            assert(reachable(
                m_b2.width as int,
                m_b2.height as int,
                m_b2.floor_mask(),
                rooms@[0].spec_center(),
                rooms@[i].spec_center(),
            ));
        }
    }
    let start = rooms[0].center();
    proof {
        lemma_center_carved(rooms@[0]);
    }
    let ghost m_pre = map;
    map.rooms = rooms;
    proof {
        assert(map.tiles == m_pre.tiles);
        assert(rooms_carved(map, map.rooms@));
        assert forall|i: int| 0 <= i < map.rooms@.len() implies reachable(
            map.width as int,
            map.height as int,
            map.floor_mask(),
            map.rooms@[0].spec_center(),
            (#[trigger] map.rooms@[i]).spec_center(),
        ) by {
            assert(reachable(
                m_pre.width as int,
                m_pre.height as int,
                m_pre.floor_mask(),
                map.rooms@[0].spec_center(),
                map.rooms@[i].spec_center(),
            ));
            assert(map.floor_mask() =~= m_pre.floor_mask());
        }
        assert(map.rooms@[0].carved(
            map.rooms@[0].spec_center().0,
            map.rooms@[0].spec_center().1,
        ));
    }
    let player_start = Position { x: start.0, y: start.1 };
    (map, player_start)
}


/// A dungeon-building strategy: build the level and its starting position
/// for a depth, then populate it with that depth's actors.
pub trait MapBuilder {
    /// Build a map and the player's starting position for the given depth.
    /// Every strategy owes the same guarantees: a well-formed map with at
    /// least one room, rooms inside the bounds, mutually separated, carved
    /// to open floor, all reachable from the first room's center over
    /// floor, the start on floor at that center, walls pre-blocked, and no
    /// stale visibility or occupancy state.
    fn build_map(&mut self, new_depth: i32) -> (r: (GameMap, Position))
        ensures
            r.0.wf(),
            r.0.depth == new_depth,
            1 <= r.0.rooms@.len(),
            forall|i: int|
                0 <= i < r.0.rooms@.len() ==> room_ok(
                    #[trigger] r.0.rooms@[i],
                    r.0.width as int,
                    r.0.height as int,
                ),
            forall|i: int|
                0 <= i < r.0.rooms@.len() ==> room_extent_ok(#[trigger] r.0.rooms@[i]),
            rooms_separated(r.0.rooms@),
            rooms_carved(r.0, r.0.rooms@),
            rooms_connected(r.0, r.0.rooms@),
            (r.1.x as int, r.1.y as int) == r.0.rooms@[0].spec_center(),
            r.0.is_floor(r.1.x as int, r.1.y as int),
            forall|i: int|
                0 <= i < r.0.count() ==> #[trigger] r.0.blocked@[i] == (r.0.tiles@[i]
                    == TileType::Wall),
            forall|i: int| 0 <= i < r.0.count() ==> !(#[trigger] r.0.revealed_tiles@[i]),
            forall|i: int| 0 <= i < r.0.count() ==> !(#[trigger] r.0.visible_tiles@[i]),
            forall|i: int| 0 <= i < r.0.count() ==> (#[trigger] r.0.tile_content@[i])@.len() == 0,
    ;

    /// Spawn the level's actors into the store: one monster per room after
    /// the first, each a blocking, watching actor on the carved floor at its
    /// room's center with one of the two monster stat blocks; every existing
    /// row is left exactly as it was.
    fn spawn_entities(&mut self, map: &GameMap, ecs: &mut World, new_depth: i32)
        requires
            map.wf(),
            old(ecs).wf(),
            forall|i: int|
                0 <= i < map.rooms@.len() ==> room_ok(
                    #[trigger] map.rooms@[i],
                    map.width as int,
                    map.height as int,
                ),
            rooms_carved(*map, map.rooms@),
            crate::visibility_system::positions_in_bounds(*old(ecs), *map),
        ensures
            final(ecs).wf(),
            final(ecs).num() == old(ecs).num() + (if map.rooms@.len() >= 1 {
                map.rooms@.len() - 1
            } else {
                0
            }),
            forall|e: int|
                0 <= e < old(ecs).num() ==> #[trigger] final(ecs).alive@[e] == old(ecs).alive@[e]
                    && final(ecs).player@[e] == old(ecs).player@[e] && final(ecs).monster@[e]
                    == old(ecs).monster@[e] && final(ecs).blocks_tile@[e] == old(ecs).blocks_tile@[e] && final(ecs).position@[e] == old(ecs).position@[e] && final(ecs).viewshed@[e] == old(ecs).viewshed@[e] && final(ecs).combat_stats@[e] == old(ecs).combat_stats@[e] && final(ecs).wants_to_melee@[e] == old(ecs).wants_to_melee@[e] && final(ecs).suffer_damage@[e] == old(ecs).suffer_damage@[e] && final(ecs).name@[e] == old(ecs).name@[e],
            forall|i: int|
                1 <= i < map.rooms@.len() ==> spawned_monster_at(
                    *final(ecs),
                    old(ecs).num() + i - 1,
                    *map,
                    #[trigger] map.rooms@[i],
                ),
            forall|e: int|
                old(ecs).num() <= e < final(ecs).num() ==> !(#[trigger] final(ecs).player@[e]),
            old(ecs).at_most_one_player() ==> final(ecs).at_most_one_player(),
            crate::visibility_system::positions_in_bounds(*final(ecs), *map),
    ;
}

/// The plain rooms-and-corridors strategy, seeded from the depth so a level
/// is a pure function of its depth.
pub struct SimpleMapBuilder {
    pub rng: Rng,
}

impl SimpleMapBuilder {
    pub fn new(new_depth: i32) -> (r: SimpleMapBuilder)
        ensures
            r.rng.wf(),
            r.rng.state == new_depth as u32 % 0x8000_0000,
    {
        SimpleMapBuilder { rng: Rng::new(new_depth as u32) }
    }
}

impl MapBuilder for SimpleMapBuilder {
    fn build_map(&mut self, new_depth: i32) -> (r: (GameMap, Position)) {
        if !(self.rng.state < 0x8000_0000) {
            self.rng = Rng::new(new_depth as u32);
        }
        new_map_rooms_and_corridors(&mut self.rng, new_depth)
    }

    fn spawn_entities(&mut self, map: &GameMap, ecs: &mut World, new_depth: i32) {
        if !(self.rng.state < 0x8000_0000) {
            self.rng = Rng::new(new_depth as u32);
        }
        let nrooms = map.rooms.len();
        let mut i: usize = 1;
        while i < nrooms
            invariant
                map.wf(),
                ecs.wf(),
                self.rng.wf(),
                nrooms == map.rooms@.len(),
                1 <= i <= spec_max(nrooms as int, 1),
                forall|j: int|
                    0 <= j < map.rooms@.len() ==> room_ok(
                        #[trigger] map.rooms@[j],
                        map.width as int,
                        map.height as int,
                    ),
                rooms_carved(*map, map.rooms@),
                crate::visibility_system::positions_in_bounds(*old(ecs), *map),
                ecs.num() == old(ecs).num() + i - 1,
                forall|e: int|
                    0 <= e < old(ecs).num() ==> #[trigger] ecs.alive@[e] == old(ecs).alive@[e]
                        && ecs.player@[e] == old(ecs).player@[e] && ecs.monster@[e] == old(ecs).monster@[e] && ecs.blocks_tile@[e] == old(ecs).blocks_tile@[e]
                        && ecs.position@[e] == old(ecs).position@[e] && ecs.viewshed@[e] == old(ecs).viewshed@[e] && ecs.combat_stats@[e] == old(ecs).combat_stats@[e]
                        && ecs.wants_to_melee@[e] == old(ecs).wants_to_melee@[e]
                        && ecs.suffer_damage@[e] == old(ecs).suffer_damage@[e] && ecs.name@[e]
                        == old(ecs).name@[e],
                forall|j: int|
                    1 <= j < i ==> spawned_monster_at(
                        *ecs,
                        old(ecs).num() + j - 1,
                        *map,
                        #[trigger] map.rooms@[j],
                    ),
                forall|e: int| old(ecs).num() <= e < ecs.num() ==> !(#[trigger] ecs.player@[e]),
                old(ecs).at_most_one_player() ==> ecs.at_most_one_player(),
                crate::visibility_system::positions_in_bounds(*ecs, *map),
            decreases nrooms - i,
        {
            let room = map.rooms[i];
            proof {
                lemma_center_carved(map.rooms@[i as int]);
                assert(map.rooms@[i as int].carved(
                    room.spec_center().0,
                    room.spec_center().1,
                ));
                assert(map.is_floor(room.spec_center().0, room.spec_center().1));
            }
            let c = room.center();
            let roll = self.rng.roll_dice(1, 2);
            let ghost e_pre = *ecs;
            let id = crate::spawner::spawn_monster(ecs, c.0, c.1, roll);
            proof {
                assert(map.in_bounds(c.0 as int, c.1 as int));
                assert forall|e2: int|
                    0 <= e2 < old(ecs).num() implies #[trigger] ecs.alive@[e2] == old(ecs).alive@[e2] && ecs.player@[e2] == old(ecs).player@[e2] && ecs.monster@[e2] == old(ecs).monster@[e2] && ecs.blocks_tile@[e2] == old(ecs).blocks_tile@[e2]
                    && ecs.position@[e2] == old(ecs).position@[e2] && ecs.viewshed@[e2] == old(ecs).viewshed@[e2] && ecs.combat_stats@[e2] == old(ecs).combat_stats@[e2]
                    && ecs.wants_to_melee@[e2] == old(ecs).wants_to_melee@[e2]
                    && ecs.suffer_damage@[e2] == old(ecs).suffer_damage@[e2] && ecs.name@[e2]
                    == old(ecs).name@[e2] by {
                    assert(ecs.alive@[e2] == e_pre.alive@[e2]);
                }
                assert(spawned_monster_at(*ecs, id as int, *map, map.rooms@[i as int]));
                assert forall|j: int|
                    1 <= j < i + 1 implies spawned_monster_at(
                    *ecs,
                    old(ecs).num() + j - 1,
                    *map,
                    #[trigger] map.rooms@[j],
                ) by {
                    if j < i {
                        let idj = old(ecs).num() + j - 1;
                        assert(ecs.alive@[idj] == e_pre.alive@[idj]);
                        assert(spawned_monster_at(e_pre, idj, *map, map.rooms@[j]));
                    }
                }
                assert forall|e2: int|
                    old(ecs).num() <= e2 < ecs.num() implies !(#[trigger] ecs.player@[e2]) by {
                    if e2 < e_pre.num() {
                        assert(ecs.alive@[e2] == e_pre.alive@[e2]);
                        assert(ecs.player@[e2] == e_pre.player@[e2]);
                    }
                }
                assert forall|e2: int|
                    0 <= e2 < ecs.num() && ecs.alive@[e2]
                        && #[trigger] ecs.position@[e2] is Some implies map.in_bounds(
                    ecs.position@[e2]->Some_0.x as int,
                    ecs.position@[e2]->Some_0.y as int,
                ) by {
                    if e2 < e_pre.num() {
                        assert(ecs.position@[e2] == e_pre.position@[e2]);
                        assert(ecs.alive@[e2] == e_pre.alive@[e2]);
                        assert(crate::visibility_system::positions_in_bounds(e_pre, *map));
                    }
                }
            }
            i = i + 1;
        }
    }
}

/// Pick the building strategy for a depth. With a single strategy the
/// choice is not yet random.
pub fn random_builder(new_depth: i32) -> (r: SimpleMapBuilder)
    ensures
        r.rng.wf(),
        r.rng.state == new_depth as u32 % 0x8000_0000,
{
    SimpleMapBuilder::new(new_depth)
}

} // verus!
