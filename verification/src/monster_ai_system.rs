//! Monster behaviour: a monster that sees the player attacks when adjacent
//! and otherwise takes one step toward the player along a path over
//! non-blocked tiles found by a breadth-style distance sweep from the
//! player's tile (unit step cost, eight-way movement, neighbours examined
//! in tile-index order so ties resolve deterministically to the lowest
//! index). A monster that does not see the player does nothing.

use vstd::prelude::*;

use crate::components::{Point, Position, WantsToMelee};
use crate::map::{GameMap, TileType};
use crate::reach::{adjacent8, is_path, passable_at, pidx};
use crate::visibility_system::positions_in_bounds;
use crate::world::World;

verus! {

/// Per-tile passability for pathing: anything not blocked this turn.
pub open spec fn open_mask(m: GameMap) -> Seq<bool> {
    Seq::new((m.width * m.height) as nat, |i: int| !m.blocked@[i])
}

/// A walk whose every position, the start included, is passable.
pub open spec fn full_path(w: int, h: int, pass: Seq<bool>, s: Seq<(int, int)>, a: (int, int), b: (
    int,
    int,
)) -> bool {
    is_path(w, h, pass, s, a, b) && passable_at(w, h, pass, a)
}

/// Sum of a distance field, the termination measure of the sweep.
pub open spec fn dsum(s: Seq<u32>) -> int
    decreases s.len(),
{
    if s.len() == 0 {
        0
    } else {
        dsum(s.drop_last()) + s.last()
    }
}

pub proof fn lemma_dsum_nonneg(s: Seq<u32>)
    ensures
        dsum(s) >= 0,
    decreases s.len(),
{
    if s.len() > 0 {
        lemma_dsum_nonneg(s.drop_last());
    }
}

pub proof fn lemma_dsum_le(a: Seq<u32>, b: Seq<u32>)
    requires
        a.len() == b.len(),
        forall|i: int| 0 <= i < a.len() ==> a[i] <= b[i],
    ensures
        dsum(a) <= dsum(b),
    decreases a.len(),
{
    if a.len() > 0 {
        lemma_dsum_le(a.drop_last(), b.drop_last());
    }
}

pub proof fn lemma_dsum_lt(a: Seq<u32>, b: Seq<u32>, k: int)
    requires
        a.len() == b.len(),
        forall|i: int| 0 <= i < a.len() ==> a[i] <= b[i],
        0 <= k < a.len(),
        a[k] < b[k],
    ensures
        dsum(a) < dsum(b),
    decreases a.len(),
{
    if k == a.len() - 1 {
        lemma_dsum_le(a.drop_last(), b.drop_last());
    } else {
        lemma_dsum_lt(a.drop_last(), b.drop_last(), k);
    }
}

/// A settled distance field: no passable edge can still lower a neighbour.
pub open spec fn dist_closed(w: int, h: int, pass: Seq<bool>, dist: Seq<u32>) -> bool {
    forall|u: (int, int), v: (int, int)|
        #![trigger adjacent8(u, v)]
        passable_at(w, h, pass, u) && passable_at(w, h, pass, v) && adjacent8(u, v) && dist[pidx(
            w,
            u,
        )] != u32::MAX ==> dist[pidx(w, v)] as int <= dist[pidx(w, u)] as int + 1
}

/// The settled prefix during a sweep: edges out of tiles below `un` are
/// settled.
pub open spec fn closed_upto(w: int, h: int, pass: Seq<bool>, dist: Seq<u32>, un: int) -> bool {
    forall|u: (int, int), v: (int, int)|
        #![trigger adjacent8(u, v)]
        passable_at(w, h, pass, u) && passable_at(w, h, pass, v) && adjacent8(u, v) && pidx(w, u)
            < un && dist[pidx(w, u)] != u32::MAX ==> dist[pidx(w, v)] as int <= dist[pidx(
            w,
            u,
        )] as int + 1
}

/// Over a settled field anchored at `b`, the recorded distance is a lower
/// bound on every passable walk's step count.
pub proof fn lemma_closed_minimal(
    w: int,
    h: int,
    pass: Seq<bool>,
    dist: Seq<u32>,
    s: Seq<(int, int)>,
    t: (int, int),
    b: (int, int),
)
    requires
        0 < w <= 4096,
        0 < h <= 4096,
        dist.len() == w * h,
        dist_closed(w, h, pass, dist),
        0 <= b.0 < w,
        0 <= b.1 < h,
        dist[pidx(w, b)] == 0,
        full_path(w, h, pass, s, t, b),
        s.len() <= w * h,
    ensures
        dist[pidx(w, t)] as int <= s.len() - 1,
    decreases s.len(),
{
    if s.len() == 1 {
        assert(t == b);
    } else {
        let tail = s.subrange(1, s.len() as int);
        assert(tail[0] == s[1]);
        assert(tail[tail.len() - 1] == b);
        assert forall|q: int| 0 <= q < tail.len() - 1 implies adjacent8(
            #[trigger] tail[q],
            tail[q + 1],
        ) by {
            assert(tail[q] == s[q + 1] && tail[q + 1] == s[q + 2]);
        }
        assert forall|q: int| 1 <= q < tail.len() implies passable_at(
            w,
            h,
            pass,
            #[trigger] tail[q],
        ) by {
            assert(tail[q] == s[q + 1]);
        }
        assert(passable_at(w, h, pass, s[1]));
        assert(full_path(w, h, pass, tail, s[1], b));
        lemma_closed_minimal(w, h, pass, dist, tail, s[1], b);
        assert(dist[pidx(w, s[1])] as int <= s.len() - 2);
        assert(dist[pidx(w, s[1])] != u32::MAX) by {
            assert(dist[pidx(w, s[1])] as int <= s.len() - 2 < w * h);
            crate::map::lemma_count_bound(w, h);
        }
        assert(adjacent8(s[1], t));
        assert(passable_at(w, h, pass, t));
        assert(dist[pidx(w, t)] as int <= dist[pidx(w, s[1])] as int + 1);
    }
}

/// Offset order of neighbour `v` around `u` in the 3x3 scan: row-major,
/// so increasing rank is increasing tile index.
pub open spec fn rank_of(u: (int, int), v: (int, int)) -> int {
    (v.1 - u.1 + 1) * 3 + (v.0 - u.0 + 1)
}

/// Among the in-bounds neighbours of one tile, scan rank order is tile
/// index order.
pub proof fn lemma_rank_index_monotone(w: int, f: (int, int), a: (int, int), b: (int, int))
    requires
        0 < w,
        adjacent8(f, a),
        adjacent8(f, b),
        0 <= a.0 < w,
        0 <= b.0 < w,
        rank_of(f, a) <= rank_of(f, b),
    ensures
        pidx(w, a) <= pidx(w, b),
{
    if a.1 == b.1 {
    } else {
        assert(b.1 - a.1 >= 1);
        assert(b.0 - a.0 >= 1 - w);
        lemma_row_major_order(w, a.1, b.1, a.0, b.0);
    }
}

/// A later row always means a later row-major index, whatever the columns.
pub proof fn lemma_row_major_order(w: int, y1: int, y2: int, x1: int, x2: int)
    by (nonlinear_arith)
    requires
        0 < w,
        y2 >= y1 + 1,
        x2 - x1 >= 1 - w,
    ensures
        y2 * w + x2 >= y1 * w + x1 + 1,
{
}

/// Over a settled field, any bounded walk from `f` enters through some
/// neighbour of `f` whose recorded distance the scan already saw, so its
/// length is at least that neighbour's distance plus two.
pub proof fn lemma_scan_bound(
    w: int,
    h: int,
    pass: Seq<bool>,
    dist: Seq<u32>,
    s2: Seq<(int, int)>,
    f: (int, int),
    b: (int, int),
    best_d: u32,
)
    requires
        0 < w <= 4096,
        0 < h <= 4096,
        dist.len() == w * h,
        dist_closed(w, h, pass, dist),
        0 <= b.0 < w,
        0 <= b.1 < h,
        dist[pidx(w, b)] == 0,
        f != b,
        is_path(w, h, pass, s2, f, b),
        s2.len() <= w * h,
        forall|v: (int, int)|
            #![trigger rank_of(f, v)]
            adjacent8(f, v) && passable_at(w, h, pass, v) && rank_of(f, v) < 9 ==> dist[pidx(
                w,
                v,
            )] as int >= best_d as int,
    ensures
        s2.len() >= best_d + 2,
        dist[pidx(w, s2[1])] as int <= s2.len() - 2,
{
    assert(s2.len() >= 2);
    let v2 = s2[1];
    assert(passable_at(w, h, pass, v2));
    assert(adjacent8(f, v2));
    let tail = s2.subrange(1, s2.len() as int);
    assert(tail[0] == v2);
    assert(tail[tail.len() - 1] == b);
    assert forall|q: int| 0 <= q < tail.len() - 1 implies adjacent8(
        #[trigger] tail[q],
        tail[q + 1],
    ) by {
        assert(tail[q] == s2[q + 1] && tail[q + 1] == s2[q + 2]);
    }
    assert forall|q: int| 1 <= q < tail.len() implies passable_at(w, h, pass, #[trigger] tail[q]) by {
        assert(tail[q] == s2[q + 1]);
    }
    assert(full_path(w, h, pass, tail, v2, b));
    lemma_closed_minimal(w, h, pass, dist, tail, v2, b);
    assert(dist[pidx(w, v2)] as int <= s2.len() - 2);
    assert(0 <= rank_of(f, v2) < 9 && rank_of(f, v2) != 4);
    assert(dist[pidx(w, v2)] as int >= best_d as int);
}

/// A fresh field: zero at the goal, undiscovered everywhere else, is sound.
pub proof fn lemma_init_sound(w: int, h: int, pass: Seq<bool>, dist: Seq<u32>, b: (int, int))
    requires
        0 < w,
        0 < h,
        dist.len() == w * h,
        0 <= b.0 < w,
        0 <= b.1 < h,
        passable_at(w, h, pass, b),
        dist[pidx(w, b)] == 0,
        forall|i: int| 0 <= i < dist.len() && i != pidx(w, b) ==> #[trigger] dist[i] == u32::MAX,
    ensures
        forall|t: (int, int)|
            #![trigger passable_at(w, h, pass, t)]
            0 <= t.0 < w && 0 <= t.1 < h && dist[pidx(w, t)] != u32::MAX ==> passable_at(
                w,
                h,
                pass,
                t,
            ) && (exists|s: Seq<(int, int)>|
                #![trigger full_path(w, h, pass, s, t, b)]
                full_path(w, h, pass, s, t, b) && s.len() == dist[pidx(w, t)] + 1),
{
    crate::map::lemma_idx_bounds(w, h, b.0, b.1);
    let s0 = seq![b];
    assert(is_path(w, h, pass, s0, b, b));
    assert(full_path(w, h, pass, s0, b, b) && s0.len() == dist[pidx(w, b)] + 1);
    assert forall|t: (int, int)|
        #![trigger passable_at(w, h, pass, t)]
        0 <= t.0 < w && 0 <= t.1 < h && dist[pidx(w, t)] != u32::MAX implies passable_at(
        w,
        h,
        pass,
        t,
    ) && exists|s: Seq<(int, int)>|
        #![trigger full_path(w, h, pass, s, t, b)]
        full_path(w, h, pass, s, t, b) && s.len() == dist[pidx(w, t)] + 1 by {
        crate::map::lemma_idx_bounds(w, h, t.0, t.1);
        crate::map::lemma_idx_injective(w, t.0, t.1, b.0, b.1);
    }
}

/// Relaxing one edge keeps the field sound: the shortened entry is
/// witnessed by stepping to the neighbour and following its walk.
pub proof fn lemma_relax_sound(
    w: int,
    h: int,
    pass: Seq<bool>,
    d0: Seq<u32>,
    d1: Seq<u32>,
    upos: (int, int),
    vpos: (int, int),
    b: (int, int),
)
    requires
        0 < w,
        0 < h,
        d0.len() == w * h,
        0 <= upos.0 < w,
        0 <= upos.1 < h,
        0 <= vpos.0 < w,
        0 <= vpos.1 < h,
        adjacent8(vpos, upos),
        passable_at(w, h, pass, vpos),
        d0[pidx(w, upos)] != u32::MAX,
        d1 == d0.update(pidx(w, vpos), (d0[pidx(w, upos)] + 1) as u32),
        forall|t: (int, int)|
            #![trigger passable_at(w, h, pass, t)]
            0 <= t.0 < w && 0 <= t.1 < h && d0[pidx(w, t)] != u32::MAX ==> passable_at(
                w,
                h,
                pass,
                t,
            ) && (exists|s: Seq<(int, int)>|
                #![trigger full_path(w, h, pass, s, t, b)]
                full_path(w, h, pass, s, t, b) && s.len() == d0[pidx(w, t)] + 1),
    ensures
        forall|t: (int, int)|
            #![trigger passable_at(w, h, pass, t)]
            0 <= t.0 < w && 0 <= t.1 < h && d1[pidx(w, t)] != u32::MAX ==> passable_at(
                w,
                h,
                pass,
                t,
            ) && (exists|s: Seq<(int, int)>|
                #![trigger full_path(w, h, pass, s, t, b)]
                full_path(w, h, pass, s, t, b) && s.len() == d1[pidx(w, t)] + 1),
{
    crate::map::lemma_idx_bounds(w, h, upos.0, upos.1);
    crate::map::lemma_idx_bounds(w, h, vpos.0, vpos.1);
    assert(passable_at(w, h, pass, upos));
    let su = choose|s: Seq<(int, int)>|
        full_path(w, h, pass, s, upos, b) && s.len() == d0[pidx(w, upos)] + 1;
    let sv = seq![vpos] + su;
    assert(sv[0] == vpos && sv[sv.len() - 1] == b);
    assert forall|q: int| 0 <= q < sv.len() - 1 implies adjacent8(#[trigger] sv[q], sv[q + 1]) by {
        if q == 0 {
            assert(sv[0] == vpos && sv[1] == su[0]);
        } else {
            assert(sv[q] == su[q - 1] && sv[q + 1] == su[q]);
        }
    }
    assert forall|q: int| 1 <= q < sv.len() implies passable_at(w, h, pass, #[trigger] sv[q]) by {
        if q == 1 {
            assert(sv[q] == su[0]);
        } else {
            assert(sv[q] == su[q - 1]);
        }
    }
    assert(full_path(w, h, pass, sv, vpos, b));
    assert(sv.len() == d1[pidx(w, vpos)] + 1);
    assert forall|t: (int, int)|
        #![trigger passable_at(w, h, pass, t)]
        0 <= t.0 < w && 0 <= t.1 < h && d1[pidx(w, t)] != u32::MAX implies passable_at(
        w,
        h,
        pass,
        t,
    ) && exists|s: Seq<(int, int)>|
        #![trigger full_path(w, h, pass, s, t, b)]
        full_path(w, h, pass, s, t, b) && s.len() == d1[pidx(w, t)] + 1 by {
        crate::map::lemma_idx_bounds(w, h, t.0, t.1);
        if pidx(w, t) == pidx(w, vpos) {
            crate::map::lemma_idx_injective(w, t.0, t.1, vpos.0, vpos.1);
            assert(t == vpos);
            assert(full_path(w, h, pass, sv, t, b) && sv.len() == d1[pidx(w, t)] + 1);
        } else {
            assert(d1[pidx(w, t)] == d0[pidx(w, t)]);
            assert(passable_at(w, h, pass, t));
            let sp = choose|s: Seq<(int, int)>|
                full_path(w, h, pass, s, t, b) && s.len() == d0[pidx(w, t)] + 1;
            assert(full_path(w, h, pass, sp, t, b) && sp.len() == d1[pidx(w, t)] + 1);
        }
    }
}

/// Once the edges out of tile `un` are checked, the settled prefix grows.
pub proof fn lemma_closed_extend(w: int, h: int, pass: Seq<bool>, dist: Seq<u32>, un: int)
    requires
        0 < w,
        0 < h,
        dist.len() == w * h,
        0 <= un < w * h,
        closed_upto(w, h, pass, dist, un),
        ({
            let upos = (un % w, un / w);
            dist[un] != u32::MAX ==> forall|v: (int, int)|
                #![trigger rank_of(upos, v)]
                adjacent8(upos, v) && passable_at(w, h, pass, v) && rank_of(upos, v) < 9
                    ==> dist[pidx(w, v)] as int <= dist[un] as int + 1
        }),
    ensures
        closed_upto(w, h, pass, dist, un + 1),
{
    let upos = (un % w, un / w);
    crate::reach::lemma_div_mod_grid(un, w, h);
    assert forall|u2: (int, int), v: (int, int)|
        #![trigger adjacent8(u2, v)]
        passable_at(w, h, pass, u2) && passable_at(w, h, pass, v) && adjacent8(u2, v) && pidx(
            w,
            u2,
        ) < un + 1 && dist[pidx(w, u2)] != u32::MAX implies dist[pidx(w, v)] as int <= dist[pidx(
        w,
        u2,
    )] as int + 1 by {
        if pidx(w, u2) == un {
            crate::map::lemma_idx_injective(w, u2.0, u2.1, upos.0, upos.1);
            assert(u2 == upos);
            assert(0 <= rank_of(u2, v) < 9 && rank_of(u2, v) != 4);
        }
    }
}

/// The whole grid settled is exactly `dist_closed`.
pub proof fn lemma_closed_full(w: int, h: int, pass: Seq<bool>, dist: Seq<u32>)
    requires
        0 < w,
        0 < h,
        dist.len() == w * h,
        closed_upto(w, h, pass, dist, w * h),
    ensures
        dist_closed(w, h, pass, dist),
{
    assert forall|u: (int, int), v: (int, int)|
        #![trigger adjacent8(u, v)]
        passable_at(w, h, pass, u) && passable_at(w, h, pass, v) && adjacent8(u, v) && dist[pidx(
            w,
            u,
        )] != u32::MAX implies dist[pidx(w, v)] as int <= dist[pidx(w, u)] as int + 1 by {
        crate::map::lemma_idx_bounds(w, h, u.0, u.1);
    }
}

/// One full relaxation sweep over the grid. When it reports no change, the
/// field is settled; otherwise some entry strictly decreased.
#[verifier::rlimit(100)]
#[verifier::spinoff_prover]
fn sweep_once(map: &GameMap, dist: &mut Vec<u32>, tx: i32, ty: i32) -> (changed: bool)
    requires
        map.wf(),
        map.in_bounds(tx as int, ty as int),
        old(dist)@.len() == map.width * map.height,
        old(dist)@[pidx(map.width as int, (tx as int, ty as int))] == 0,
        forall|t: (int, int)|
            #![trigger passable_at(map.width as int, map.height as int, open_mask(*map), t)]
            0 <= t.0 < map.width as int && 0 <= t.1 < map.height as int && old(dist)@[pidx(map.width as int, t)] != u32::MAX ==> passable_at(
                map.width as int,
                map.height as int,
                open_mask(*map),
                t,
            ) && (exists|s: Seq<(int, int)>|
                #![trigger full_path(map.width as int, map.height as int, open_mask(*map), s, t, (tx as int, ty as int))]
                full_path(map.width as int, map.height as int, open_mask(*map), s, t, (tx as int, ty as int)) && s.len() == old(dist)@[pidx(map.width as int, t)] + 1),
    ensures
        final(dist)@.len() == old(dist)@.len(),
        final(dist)@[pidx(map.width as int, (tx as int, ty as int))] == 0,
        forall|t: (int, int)|
            #![trigger passable_at(map.width as int, map.height as int, open_mask(*map), t)]
            0 <= t.0 < map.width as int && 0 <= t.1 < map.height as int && final(dist)@[pidx(map.width as int, t)] != u32::MAX ==> passable_at(
                map.width as int,
                map.height as int,
                open_mask(*map),
                t,
            ) && (exists|s: Seq<(int, int)>|
                #![trigger full_path(map.width as int, map.height as int, open_mask(*map), s, t, (tx as int, ty as int))]
                full_path(map.width as int, map.height as int, open_mask(*map), s, t, (tx as int, ty as int)) && s.len() == final(dist)@[pidx(map.width as int, t)] + 1),
        forall|i: int| 0 <= i < final(dist)@.len() ==> #[trigger] final(dist)@[i] <= old(dist)@[i],
        changed ==> exists|kk: int|
            0 <= kk < final(dist)@.len() && final(dist)@[kk] < old(dist)@[kk],
        !changed ==> final(dist)@ == old(dist)@ && dist_closed(
            map.width as int,
            map.height as int,
            open_mask(*map),
            final(dist)@,
        ),
{
    let w = map.width;
    let h = map.height;
    let ghost wi = w as int;
    let ghost hi = h as int;
    let ghost pass = open_mask(*map);
    let ghost bpos = (tx as int, ty as int);
    let count = dist.len();
    proof {
        crate::map::lemma_count_bound(wi, hi);
        crate::map::lemma_idx_bounds(wi, hi, tx as int, ty as int);
    }
    let mut changed = false;
    let mut u: usize = 0;
    while u < count
        invariant
            map.wf(),
            w == map.width,
            h == map.height,
            wi == map.width as int,
            hi == map.height as int,
            pass == open_mask(*map),
            bpos == (tx as int, ty as int),
            map.in_bounds(tx as int, ty as int),
            count == dist@.len(),
            count == wi * hi,
            u <= count,
            dist@[pidx(wi, bpos)] == 0,
            0 <= pidx(wi, bpos) < count,
            forall|t: (int, int)|
                #![trigger pidx(wi, t)]
                0 <= t.0 < wi && 0 <= t.1 < hi && dist@[pidx(wi, t)] != u32::MAX ==> passable_at(
                    wi,
                    hi,
                    pass,
                    t,
                ) && (exists|s: Seq<(int, int)>|
                    #![trigger full_path(wi, hi, pass, s, t, bpos)]
                    full_path(wi, hi, pass, s, t, bpos) && s.len() == dist@[pidx(wi, t)] + 1),
            forall|i: int| 0 <= i < count ==> #[trigger] dist@[i] <= old(dist)@[i],
            changed ==> exists|kk: int| 0 <= kk < count && dist@[kk] < old(dist)@[kk],
            !changed ==> dist@ == old(dist)@,
            !changed ==> closed_upto(wi, hi, pass, dist@, u as int),
        decreases count - u,
    {
        let du = dist[u];
        let ghost ux0 = u as int % wi;
        let ghost uy0 = u as int / wi;
        proof {
            crate::reach::lemma_div_mod_grid(u as int, wi, hi);
        }
        if du != u32::MAX {
            let ux = (u % (w as usize)) as i32;
            let uy = (u / (w as usize)) as i32;
            let mut k: usize = 0;
            while k < 9
                invariant
                    map.wf(),
                    w == map.width,
                    h == map.height,
                    wi == map.width as int,
                    hi == map.height as int,
                    pass == open_mask(*map),
                    bpos == (tx as int, ty as int),
                    map.in_bounds(tx as int, ty as int),
                    count == dist@.len(),
                    count == wi * hi,
                    k <= 9,
                    u < count,
                    du != u32::MAX,
                    ux == u as int % wi,
                    uy == u as int / wi,
                    map.in_bounds(ux as int, uy as int),
                    pidx(wi, (ux as int, uy as int)) == u as int,
                    dist@[u as int] == du,
                    dist@[pidx(wi, bpos)] == 0,
                    0 <= pidx(wi, bpos) < count,
                    forall|t: (int, int)|
                        #![trigger pidx(wi, t)]
                        0 <= t.0 < wi && 0 <= t.1 < hi && dist@[pidx(wi, t)] != u32::MAX ==> passable_at(
                            wi,
                            hi,
                            pass,
                            t,
                        ) && (exists|s: Seq<(int, int)>|
                            #![trigger full_path(wi, hi, pass, s, t, bpos)]
                            full_path(wi, hi, pass, s, t, bpos) && s.len() == dist@[pidx(wi, t)] + 1),
                    forall|i: int| 0 <= i < count ==> #[trigger] dist@[i] <= old(dist)@[i],
                    changed ==> exists|kk: int| 0 <= kk < count && dist@[kk] < old(dist)@[kk],
                    !changed ==> dist@ == old(dist)@,
                    !changed ==> closed_upto(wi, hi, pass, dist@, u as int),
                    !changed ==> (forall|v: (int, int)|
                        #![trigger rank_of((ux as int, uy as int), v)]
                        adjacent8((ux as int, uy as int), v) && passable_at(wi, hi, pass, v)
                            && rank_of((ux as int, uy as int), v) < k ==> dist@[pidx(wi, v)] as int
                            <= du as int + 1),
                decreases 9 - k,
            {
                let dx = (k % 3) as i32 - 1;
                let dy = (k / 3) as i32 - 1;
                let ghost upos = (ux as int, uy as int);
                if !(dx == 0 && dy == 0) {
                    let vx = ux + dx;
                    let vy = uy + dy;
                    if vx >= 0 && vx < w && vy >= 0 && vy < h {
                        let vidx = map.xy_idx(vx, vy);
                        if !map.blocked[vidx] && dist[vidx] > du + 1 {
                            let ghost d_pre = dist@;
                            dist[vidx] = du + 1;
                            changed = true;
                            proof {
                                let vpos = (vx as int, vy as int);
                                crate::map::lemma_idx_bounds(wi, hi, vpos.0, vpos.1);
                                if vidx == u {
                                    crate::map::lemma_idx_injective(
                                        wi,
                                        ux as int,
                                        uy as int,
                                        vx as int,
                                        vy as int,
                                    );
                                    assert(false);
                                }
                                assert(passable_at(wi, hi, pass, vpos));
                                lemma_relax_sound(wi, hi, pass, d_pre, dist@, upos, vpos, bpos);
                                assert(dist@[vidx as int] < d_pre[vidx as int]);
                            }
                        }
                    }
                }
                k = k + 1;
                proof {
                    if !changed {
                        assert forall|v: (int, int)|
                            #![trigger rank_of(upos, v)]
                            adjacent8(upos, v) && passable_at(wi, hi, pass, v) && rank_of(upos, v)
                                < k implies dist@[pidx(wi, v)] as int <= du as int + 1 by {
                            if rank_of(upos, v) == k - 1 {
                                assert(v.0 - upos.0 == dx as int && v.1 - upos.1 == dy as int);
                                assert(v == ((ux + dx) as int, (uy + dy) as int));
                            }
                        }
                    }
                }
            }
        }
        proof {
            if !changed {
                lemma_closed_extend(wi, hi, pass, dist@, u as int);
            }
            assert(forall|t: (int, int)|
                #![trigger pidx(wi, t)]
                0 <= t.0 < wi && 0 <= t.1 < hi && dist@[pidx(wi, t)] != u32::MAX ==> passable_at(
                    wi,
                    hi,
                    pass,
                    t,
                ) && (exists|s: Seq<(int, int)>|
                    #![trigger full_path(wi, hi, pass, s, t, bpos)]
                    full_path(wi, hi, pass, s, t, bpos) && s.len() == dist@[pidx(wi, t)] + 1));
        }
        u = u + 1;
    }
    proof {
        if !changed {
            lemma_closed_full(wi, hi, pass, dist@);
        }
    }
    changed
}

/// An empty scan over a settled, sound field means no bounded walk exists.
#[verifier::rlimit(100)]
#[verifier::spinoff_prover]
pub proof fn lemma_pick_none(
    w: int,
    h: int,
    pass: Seq<bool>,
    dist: Seq<u32>,
    f: (int, int),
    b: (int, int),
)
    requires
        0 < w <= 4096,
        0 < h <= 4096,
        dist.len() == w * h,
        0 <= f.0 < w,
        0 <= f.1 < h,
        0 <= b.0 < w,
        0 <= b.1 < h,
        f != b,
        dist[pidx(w, b)] == 0,
        dist_closed(w, h, pass, dist),
        forall|v: (int, int)|
            #![trigger rank_of(f, v)]
            adjacent8(f, v) && passable_at(w, h, pass, v) && rank_of(f, v) < 9 ==> dist[pidx(
                w,
                v,
            )] == u32::MAX,
    ensures
        forall|s2: Seq<(int, int)>| is_path(w, h, pass, s2, f, b) ==> s2.len() > w * h,
{
    assert forall|s2: Seq<(int, int)>|
        is_path(w, h, pass, s2, f, b) implies s2.len() > w * h by {
        if s2.len() <= w * h {
            crate::map::lemma_count_bound(w, h);
            lemma_scan_bound(w, h, pass, dist, s2, f, b, u32::MAX);
            assert(s2.len() >= u32::MAX + 2);
            assert(false);
        }
    }
}

/// A found neighbour begins a shortest bounded walk, lowest tile index on
/// ties.
#[verifier::rlimit(100)]
#[verifier::spinoff_prover]
pub proof fn lemma_pick_some(
    w: int,
    h: int,
    pass: Seq<bool>,
    dist: Seq<u32>,
    f: (int, int),
    b: (int, int),
    v: (int, int),
    best_d: u32,
    best_rank: int,
)
    requires
        0 < w <= 4096,
        0 < h <= 4096,
        dist.len() == w * h,
        0 <= f.0 < w,
        0 <= f.1 < h,
        0 <= b.0 < w,
        0 <= b.1 < h,
        f != b,
        dist[pidx(w, b)] == 0,
        dist_closed(w, h, pass, dist),
        forall|t: (int, int)|
            #![trigger pidx(w, t)]
            0 <= t.0 < w && 0 <= t.1 < h && dist[pidx(w, t)] != u32::MAX ==> passable_at(
                w,
                h,
                pass,
                t,
            ) && (exists|s: Seq<(int, int)>|
                #![trigger full_path(w, h, pass, s, t, b)]
                full_path(w, h, pass, s, t, b) && s.len() == dist[pidx(w, t)] + 1),
        0 <= v.0 < w,
        0 <= v.1 < h,
        passable_at(w, h, pass, v),
        adjacent8(f, v),
        best_d != u32::MAX,
        dist[pidx(w, v)] == best_d,
        0 <= best_rank < 9,
        rank_of(f, v) == best_rank,
        forall|v2: (int, int)|
            #![trigger rank_of(f, v2)]
            adjacent8(f, v2) && passable_at(w, h, pass, v2) && rank_of(f, v2) < 9 ==> dist[pidx(
                w,
                v2,
            )] as int >= best_d as int,
        forall|v2: (int, int)|
            #![trigger rank_of(f, v2)]
            adjacent8(f, v2) && passable_at(w, h, pass, v2) && rank_of(f, v2) < best_rank
                ==> dist[pidx(w, v2)] as int > best_d as int,
    ensures
        exists|s: Seq<(int, int)>|
            is_path(w, h, pass, s, f, b) && s.len() >= 2 && s[1] == v && (forall|
                s2: Seq<(int, int)>,
            |
                is_path(w, h, pass, s2, f, b) && s2.len() <= w * h ==> s2.len() >= s.len() && (
                s2.len() == s.len() ==> pidx(w, s2[1]) >= pidx(w, v))),
{
    let sv = choose|s: Seq<(int, int)>|
        #![trigger full_path(w, h, pass, s, v, b)]
        full_path(w, h, pass, s, v, b) && s.len() == dist[pidx(w, v)] + 1;
    let sf = seq![f] + sv;
    assert(sf[0] == f && sf[sf.len() - 1] == b);
    assert forall|q: int| 0 <= q < sf.len() - 1 implies adjacent8(#[trigger] sf[q], sf[q + 1]) by {
        if q == 0 {
            assert(sf[0] == f && sf[1] == sv[0]);
        } else {
            assert(sf[q] == sv[q - 1] && sf[q + 1] == sv[q]);
        }
    }
    assert forall|q: int| 1 <= q < sf.len() implies passable_at(w, h, pass, #[trigger] sf[q]) by {
        if q == 1 {
            assert(sf[q] == sv[0]);
        } else {
            assert(sf[q] == sv[q - 1]);
        }
    }
    assert(is_path(w, h, pass, sf, f, b));
    assert(sf.len() >= 2 && sf[1] == v);
    assert(sf.len() == best_d + 2);
    assert forall|s2: Seq<(int, int)>|
        is_path(w, h, pass, s2, f, b) && s2.len() <= w * h implies s2.len() >= sf.len() && (
    s2.len() == sf.len() ==> pidx(w, s2[1]) >= pidx(w, v)) by {
        lemma_scan_bound(w, h, pass, dist, s2, f, b, best_d);
        if s2.len() == sf.len() {
            let v2 = s2[1];
            assert(adjacent8(f, v2) && passable_at(w, h, pass, v2));
            assert(0 <= rank_of(f, v2) < 9 && rank_of(f, v2) != 4);
            assert(dist[pidx(w, v2)] as int >= best_d as int);
            assert(dist[pidx(w, v2)] as int <= s2.len() - 2);
            assert(dist[pidx(w, v2)] as int == best_d as int);
            assert(rank_of(f, v2) >= best_rank);
            lemma_rank_index_monotone(w, f, v, v2);
        }
    }
}

/// Scan the eight neighbours of the start in tile-index order against a
/// settled, sound distance field and pick the smallest count; ties fall to
/// the lowest tile index.
#[verifier::rlimit(100)]
#[verifier::spinoff_prover]
fn pick_step(map: &GameMap, dist: &Vec<u32>, fx: i32, fy: i32, tx: i32, ty: i32) -> (r: Option<
    (i32, i32),
>)
    requires
        map.wf(),
        map.in_bounds(fx as int, fy as int),
        map.in_bounds(tx as int, ty as int),
        !(fx == tx && fy == ty),
        dist@.len() == map.width * map.height,
        ({
            let wi = map.width as int;
            let hi = map.height as int;
            let pass = open_mask(*map);
            let bpos = (tx as int, ty as int);
            dist@[pidx(wi, bpos)] == 0 && dist_closed(wi, hi, pass, dist@) && (forall|t: (int, int)|
                #![trigger pidx(wi, t)]
                0 <= t.0 < wi && 0 <= t.1 < hi && dist@[pidx(wi, t)] != u32::MAX ==> passable_at(
                    wi,
                    hi,
                    pass,
                    t,
                ) && (exists|s: Seq<(int, int)>|
                    #![trigger full_path(wi, hi, pass, s, t, bpos)]
                    full_path(wi, hi, pass, s, t, bpos) && s.len() == dist@[pidx(wi, t)] + 1))
        }),
    ensures
        r is Some ==> ({
            let v = (r->Some_0.0 as int, r->Some_0.1 as int);
            &&& map.in_bounds(v.0, v.1)
            &&& passable_at(map.width as int, map.height as int, open_mask(*map), v)
            &&& adjacent8((fx as int, fy as int), v)
            &&& exists|s: Seq<(int, int)>|
                is_path(
                    map.width as int,
                    map.height as int,
                    open_mask(*map),
                    s,
                    (fx as int, fy as int),
                    (tx as int, ty as int),
                ) && s.len() >= 2 && s[1] == v && (forall|s2: Seq<(int, int)>|
                    is_path(
                        map.width as int,
                        map.height as int,
                        open_mask(*map),
                        s2,
                        (fx as int, fy as int),
                        (tx as int, ty as int),
                    ) && s2.len() <= map.width * map.height ==> s2.len() >= s.len() && (s2.len()
                        == s.len() ==> pidx(map.width as int, s2[1]) >= pidx(
                        map.width as int,
                        v,
                    )))
        }),
        r is None ==> (forall|s2: Seq<(int, int)>|
            is_path(
                map.width as int,
                map.height as int,
                open_mask(*map),
                s2,
                (fx as int, fy as int),
                (tx as int, ty as int),
            ) ==> s2.len() > map.width * map.height),
{
    let w = map.width;
    let h = map.height;
    let ghost wi = w as int;
    let ghost hi = h as int;
    let ghost pass = open_mask(*map);
    let ghost fpos = (fx as int, fy as int);
    let ghost bpos = (tx as int, ty as int);
    let ghost count = (wi * hi) as int;
    proof {
        crate::map::lemma_count_bound(wi, hi);
        crate::map::lemma_idx_bounds(wi, hi, tx as int, ty as int);
    }
    let ghost to_idx = pidx(wi, bpos);
    // pick the discovered neighbour with the smallest distance, scanning in
    // tile-index order so the lowest index wins ties
    let mut best: Option<(i32, i32)> = Option::None;
    let mut best_d: u32 = u32::MAX;
    let ghost mut best_rank: int = 9;
    let mut k: usize = 0;
    #[verifier::loop_isolation(false)]
    while k < 9
        invariant
            k <= 9,
            best is None ==> best_d == u32::MAX,
            best is None ==> (forall|v: (int, int)|
                #![trigger rank_of(fpos, v)]
                adjacent8(fpos, v) && passable_at(wi, hi, pass, v) && rank_of(fpos, v) < k
                    ==> dist@[pidx(wi, v)] == u32::MAX),
            best is Some ==> ({
                let v = ((best->Some_0).0 as int, (best->Some_0).1 as int);
                &&& map.in_bounds(v.0, v.1)
                &&& passable_at(wi, hi, pass, v)
                &&& adjacent8(fpos, v)
                &&& best_d != u32::MAX
                &&& dist@[pidx(wi, v)] == best_d
                &&& 0 <= best_rank < k
                &&& rank_of(fpos, v) == best_rank
            }),
            best is Some ==> (forall|v: (int, int)|
                #![trigger rank_of(fpos, v)]
                adjacent8(fpos, v) && passable_at(wi, hi, pass, v) && rank_of(fpos, v) < k
                    ==> dist@[pidx(wi, v)] as int >= best_d as int),
            best is Some ==> (forall|v: (int, int)|
                #![trigger rank_of(fpos, v)]
                adjacent8(fpos, v) && passable_at(wi, hi, pass, v) && rank_of(fpos, v) < best_rank
                    ==> dist@[pidx(wi, v)] as int > best_d as int),
        decreases 9 - k,
    {
        let dx = (k % 3) as i32 - 1;
        let dy = (k / 3) as i32 - 1;
        if !(dx == 0 && dy == 0) {
            let vx = fx + dx;
            let vy = fy + dy;
            if vx >= 0 && vx < w && vy >= 0 && vy < h {
                let vidx = map.xy_idx(vx, vy);
                if !map.blocked[vidx] && dist[vidx] < best_d {
                    proof {
                        crate::map::lemma_idx_bounds(wi, hi, vx as int, vy as int);
                    }
                    best = Option::Some((vx, vy));
                    best_d = dist[vidx];
                    proof {
                        best_rank = k as int;
                        assert(rank_of(fpos, (vx as int, vy as int)) == k as int);
                    }
                }
            }
        }
        k = k + 1;
        proof {
            assert forall|v: (int, int)|
                #![trigger rank_of(fpos, v)]
                adjacent8(fpos, v) && passable_at(wi, hi, pass, v) && rank_of(fpos, v)
                    < k implies (best is None ==> dist@[pidx(wi, v)] == u32::MAX) && (best is Some
                ==> dist@[pidx(wi, v)] as int >= best_d as int) && (best is Some && rank_of(
                fpos,
                v,
            ) < best_rank ==> dist@[pidx(wi, v)] as int > best_d as int) by {
                if rank_of(fpos, v) == k - 1 {
                    assert(v.0 - fpos.0 == dx as int && v.1 - fpos.1 == dy as int);
                    assert(v == ((fx + dx) as int, (fy + dy) as int));
                }
            }
        }
    }
    proof {
        if best is Some {
            let v = ((best->Some_0).0 as int, (best->Some_0).1 as int);
            lemma_pick_some(wi, hi, pass, dist@, fpos, bpos, v, best_d, best_rank);
        } else {
            lemma_pick_none(wi, hi, pass, dist@, fpos, bpos);
        }
    }
    best
}

/// One step toward `(tx, ty)` from `(fx, fy)` over non-blocked tiles: the
/// field of step counts from the target is relaxed to a fixpoint, then the
/// neighbours of the start are scanned in tile-index order for the smallest
/// count, so equal-length choices resolve to the lowest tile index. A
/// returned step is adjacent, passable, and begins a shortest walk to the
/// target among all walks of at most one position per tile; `None` means no
/// walk of that length exists at all.
#[verifier::rlimit(100)]
#[verifier::spinoff_prover]
pub fn monster_step(map: &GameMap, fx: i32, fy: i32, tx: i32, ty: i32) -> (r: Option<(i32, i32)>)
    requires
        map.wf(),
        map.in_bounds(fx as int, fy as int),
        map.in_bounds(tx as int, ty as int),
        !(fx == tx && fy == ty),
    ensures
        r is Some ==> ({
            let v = (r->Some_0.0 as int, r->Some_0.1 as int);
            &&& map.in_bounds(v.0, v.1)
            &&& passable_at(map.width as int, map.height as int, open_mask(*map), v)
            &&& adjacent8((fx as int, fy as int), v)
            &&& exists|s: Seq<(int, int)>|
                is_path(
                    map.width as int,
                    map.height as int,
                    open_mask(*map),
                    s,
                    (fx as int, fy as int),
                    (tx as int, ty as int),
                ) && s.len() >= 2 && s[1] == v && (forall|s2: Seq<(int, int)>|
                    is_path(
                        map.width as int,
                        map.height as int,
                        open_mask(*map),
                        s2,
                        (fx as int, fy as int),
                        (tx as int, ty as int),
                    ) && s2.len() <= map.width * map.height ==> s2.len() >= s.len() && (s2.len()
                        == s.len() ==> pidx(map.width as int, s2[1]) >= pidx(
                        map.width as int,
                        v,
                    )))
        }),
        r is None ==> (forall|s2: Seq<(int, int)>|
            is_path(
                map.width as int,
                map.height as int,
                open_mask(*map),
                s2,
                (fx as int, fy as int),
                (tx as int, ty as int),
            ) ==> s2.len() > map.width * map.height),
{
    let w = map.width;
    let h = map.height;
    let ghost wi = w as int;
    let ghost hi = h as int;
    let ghost pass = open_mask(*map);
    let ghost fpos = (fx as int, fy as int);
    let ghost bpos = (tx as int, ty as int);
    let count = map.tiles.len();
    proof {
        crate::map::lemma_count_bound(wi, hi);
    }
    let to_idx = map.xy_idx(tx, ty);
    if map.blocked[to_idx] {
        proof {
            assert forall|s2: Seq<(int, int)>|
                is_path(wi, hi, pass, s2, fpos, bpos) implies s2.len() > wi * hi by {
                if s2.len() <= wi * hi {
                    assert(s2.len() >= 2);
                    assert(passable_at(wi, hi, pass, s2[s2.len() - 1]));
                    assert(!pass[pidx(wi, bpos)]);
                }
            }
        }
        return Option::None;
    }
    let mut dist: Vec<u32> = Vec::new();
    let mut i: usize = 0;
    while i < count
        invariant
            i <= count,
            dist@.len() == i,
            forall|j: int| 0 <= j < i ==> dist@[j] == u32::MAX,
        decreases count - i,
    {
        dist.push(u32::MAX);
        i = i + 1;
    }
    dist[to_idx] = 0;
    proof {
        crate::map::lemma_idx_bounds(wi, hi, tx as int, ty as int);
        assert(passable_at(wi, hi, pass, bpos));
        lemma_init_sound(wi, hi, pass, dist@, bpos);
    }
    let mut changed = true;
    while changed
        invariant
            map.wf(),
            w == map.width,
            h == map.height,
            wi == map.width as int,
            hi == map.height as int,
            pass == open_mask(*map),
            fpos == (fx as int, fy as int),
            bpos == (tx as int, ty as int),
            map.in_bounds(tx as int, ty as int),
            count == map.tiles@.len(),
            count == wi * hi,
            dist@.len() == count,
            to_idx == pidx(wi, bpos),
            to_idx < count,
            dist@[to_idx as int] == 0,
            forall|t: (int, int)|
                #![trigger pidx(wi, t)]
                0 <= t.0 < wi && 0 <= t.1 < hi && dist@[pidx(wi, t)] != u32::MAX ==> passable_at(
                    wi,
                    hi,
                    pass,
                    t,
                ) && (exists|s: Seq<(int, int)>|
                    #![trigger full_path(wi, hi, pass, s, t, bpos)]
                    full_path(wi, hi, pass, s, t, bpos) && s.len() == dist@[pidx(wi, t)] + 1),
            !changed ==> dist_closed(wi, hi, pass, dist@),
        decreases (dsum(dist@) + (if changed {
            1int
        } else {
            0int
        })),
    {
        let ghost d_entry = dist@;
        changed = sweep_once(map, &mut dist, tx, ty);
        proof {
            lemma_dsum_nonneg(dist@);
            if changed {
                let kk = choose|kk: int| 0 <= kk < dist@.len() && dist@[kk] < d_entry[kk];
                lemma_dsum_lt(dist@, d_entry, kk);
            }
        }
    }
    pick_step(map, &dist, fx, fy, tx, ty)
}

/// The monster's viewshed currently lists the tile `(px, py)`.
pub open spec fn sees_tile(w: World, e: int, px: int, py: int) -> bool {
    w.viewshed@[e]->Some_0.visible_tiles@.contains(Point { x: px as i32, y: py as i32 })
}

/// Within melee reach: one king move or closer.
pub open spec fn within_melee(ax: int, ay: int, bx: int, by: int) -> bool {
    -1 <= ax - bx <= 1 && -1 <= ay - by <= 1
}

/// An alive player with a position.
pub open spec fn is_live_player(w: World, p: int) -> bool {
    &&& 0 <= p < w.num()
    &&& w.alive@[p]
    &&& w.player@[p]
    &&& w.position@[p] is Some
}

/// A monster that takes a turn: alive, tagged, seeing apparatus and a place
/// to stand, and not the player itself.
pub open spec fn acts(w: World, e: int, p: int) -> bool {
    &&& 0 <= e < w.num()
    &&& w.alive@[e]
    &&& w.monster@[e]
    &&& w.viewshed@[e] is Some
    &&& w.position@[e] is Some
    &&& e != p
}

/// The monster stands and fights: it sees the player's tile and is within
/// one step of it.
pub open spec fn ai_stands(w: World, e: int, p: int) -> bool {
    &&& acts(w, e, p)
    &&& sees_tile(w, e, w.position@[p]->Some_0.x as int, w.position@[p]->Some_0.y as int)
    &&& within_melee(
        w.position@[e]->Some_0.x as int,
        w.position@[e]->Some_0.y as int,
        w.position@[p]->Some_0.x as int,
        w.position@[p]->Some_0.y as int,
    )
}

/// The monster chases: it sees the player's tile but is too far to strike.
pub open spec fn ai_chases(w: World, e: int, p: int) -> bool {
    &&& acts(w, e, p)
    &&& sees_tile(w, e, w.position@[p]->Some_0.x as int, w.position@[p]->Some_0.y as int)
    &&& !within_melee(
        w.position@[e]->Some_0.x as int,
        w.position@[e]->Some_0.y as int,
        w.position@[p]->Some_0.x as int,
        w.position@[p]->Some_0.y as int,
    )
}

/// What one chasing monster's turn does: it stands still exactly when no
/// walk of at most one position per tile leads to the player over the
/// indexer's blocked array, and otherwise takes the lowest-tile-index
/// first step of a shortest such walk, dirtying its viewshed.
pub open spec fn chase_outcome(m: GameMap, w0: World, w1: World, e: int, p: int) -> bool {
    let mx = w0.position@[e]->Some_0.x as int;
    let my = w0.position@[e]->Some_0.y as int;
    let px = w0.position@[p]->Some_0.x as int;
    let py = w0.position@[p]->Some_0.y as int;
    let wi = m.width as int;
    let hi = m.height as int;
    &&& (w1.position@[e] == w0.position@[e] ==> w1.viewshed@[e] == w0.viewshed@[e] && (forall|
        s2: Seq<(int, int)>,
    |
        is_path(wi, hi, open_mask(m), s2, (mx, my), (px, py)) ==> s2.len() > wi * hi))
    &&& (w1.position@[e] != w0.position@[e] ==> ({
        let nx = w1.position@[e]->Some_0.x as int;
        let ny = w1.position@[e]->Some_0.y as int;
        &&& w1.position@[e] is Some
        &&& adjacent8((mx, my), (nx, ny))
        &&& m.in_bounds(nx, ny)
        &&& m.tiles@[m.idx_of(nx, ny)] != TileType::Wall
        &&& !m.blocked@[m.idx_of(nx, ny)]
        &&& w1.viewshed@[e] is Some
        &&& w1.viewshed@[e]->Some_0.dirty
        &&& w1.viewshed@[e]->Some_0.visible_tiles == w0.viewshed@[e]->Some_0.visible_tiles
        &&& w1.viewshed@[e]->Some_0.range == w0.viewshed@[e]->Some_0.range
        &&& exists|s: Seq<(int, int)>|
            is_path(wi, hi, open_mask(m), s, (mx, my), (px, py)) && s.len() >= 2 && s[1] == (
            nx,
            ny,
        ) && (forall|s2: Seq<(int, int)>|
                is_path(wi, hi, open_mask(m), s2, (mx, my), (px, py)) && s2.len() <= wi * hi
                    ==> s2.len() >= s.len() && (s2.len() == s.len() ==> pidx(wi, s2[1]) >= pidx(
                    wi,
                    (nx, ny),
                )))
    }))
}

/// Whether the list holds the point `(x, y)`.
pub fn contains_point(pts: &Vec<Point>, x: i32, y: i32) -> (r: bool)
    ensures
        r == pts@.contains(Point { x, y }),
{
    let n = pts.len();
    let mut i: usize = 0;
    while i < n
        invariant
            n == pts@.len(),
            i <= n,
            forall|j: int| 0 <= j < i ==> pts@[j] != (Point { x, y }),
        decreases n - i,
    {
        let p = pts[i];
        if p.x == x && p.y == y {
            assert(pts@[i as int] == (Point { x, y }));
            return true;
        }
        i = i + 1;
    }
    false
}

/// Find the live player, if any.
pub fn find_player(world: &World) -> (r: Option<usize>)
    requires
        world.wf(),
    ensures
        r is Some ==> is_live_player(*world, r->Some_0 as int),
        r is None ==> forall|p: int| !is_live_player(*world, p),
{
    let n = world.len();
    let mut i: usize = 0;
    while i < n
        invariant
            world.wf(),
            n == world.num(),
            i <= n,
            forall|p: int| 0 <= p < i ==> !is_live_player(*world, p),
        decreases n - i,
    {
        if world.alive[i] && world.player[i] && world.position[i].is_some() {
            return Option::Some(i);
        }
        i = i + 1;
    }
    Option::None
}

/// The behaviour pass. Each monster that sees the player's tile either
/// declares a melee attack (when within one step of the player) or takes
/// one step along a shortest bounded walk toward the player over the
/// occupancy indexer's blocked array (the map is read, never written:
/// per the pipeline order the indexer rebuilds its records right after
/// this pass). A chaser that stands still has no bounded walk at all; a
/// chaser that moves takes the lowest-tile-index shortest step, marks its
/// viewshed dirty and keeps its computed set; a monster that does not see
/// the player, and every non-monster, is left untouched.
#[verifier::rlimit(100)]
#[verifier::spinoff_prover]
pub fn run(map: &GameMap, world: &mut World)
    requires
        map.wf(),
        old(world).wf(),
        old(world).at_most_one_player(),
        positions_in_bounds(*old(world), *map),
        forall|idx: int|
            0 <= idx < map.count() && map.tiles@[idx] == TileType::Wall
                ==> #[trigger] map.blocked@[idx],
    ensures
        final(world).wf(),
        final(world).at_most_one_player(),
        positions_in_bounds(*final(world), *map),
        final(world).alive@ == old(world).alive@,
        final(world).player@ == old(world).player@,
        final(world).monster@ == old(world).monster@,
        final(world).blocks_tile@ == old(world).blocks_tile@,
        final(world).combat_stats@ == old(world).combat_stats@,
        final(world).suffer_damage@ == old(world).suffer_damage@,
        final(world).name@ == old(world).name@,
        (forall|p: int| !is_live_player(*old(world), p)) ==> final(world).position@ == old(world).position@ && final(world).viewshed@ == old(world).viewshed@ && final(world).wants_to_melee@ == old(world).wants_to_melee@,
        forall|p: int, e: int|
            #![trigger is_live_player(*old(world), p), final(world).position@[e]]
            is_live_player(*old(world), p) && 0 <= e < old(world).num() && !ai_chases(
                *old(world),
                e,
                p,
            ) ==> final(world).position@[e] == old(world).position@[e],
        forall|p: int, e: int|
            #![trigger is_live_player(*old(world), p), final(world).viewshed@[e]]
            is_live_player(*old(world), p) && 0 <= e < old(world).num() && !ai_chases(
                *old(world),
                e,
                p,
            ) ==> final(world).viewshed@[e] == old(world).viewshed@[e],
        forall|p: int, e: int|
            #![trigger is_live_player(*old(world), p), final(world).wants_to_melee@[e]]
            is_live_player(*old(world), p) && 0 <= e < old(world).num() && ai_stands(
                *old(world),
                e,
                p,
            ) ==> final(world).wants_to_melee@[e] == (Option::Some(
                WantsToMelee { target: p as usize },
            )),
        forall|p: int, e: int|
            #![trigger is_live_player(*old(world), p), final(world).wants_to_melee@[e]]
            is_live_player(*old(world), p) && 0 <= e < old(world).num() && !ai_stands(
                *old(world),
                e,
                p,
            ) ==> final(world).wants_to_melee@[e] == old(world).wants_to_melee@[e],
        forall|p: int, e: int|
            #![trigger is_live_player(*old(world), p), final(world).position@[e]]
            is_live_player(*old(world), p) && 0 <= e < old(world).num() && ai_chases(
                *old(world),
                e,
                p,
            ) ==> chase_outcome(*map, *old(world), *final(world), e, p),
{
    let p_opt = find_player(world);
    if p_opt.is_none() {
        return ;
    }
    let p = p_opt.unwrap();
    let ppos = world.position[p].unwrap();
    let n = world.len();
    let mut e: usize = 0;
    while e < n
        invariant
            map.wf(),
            world.wf(),
            old(world).wf(),
            old(world).at_most_one_player(),
            positions_in_bounds(*old(world), *map),
            positions_in_bounds(*world, *map),
            forall|idx: int|
                0 <= idx < map.count() && map.tiles@[idx] == TileType::Wall
                    ==> #[trigger] map.blocked@[idx],
            n == world.num(),
            n == old(world).num(),
            e <= n,
            is_live_player(*old(world), p as int),
            ppos == old(world).position@[p as int]->Some_0,
            world.alive@ == old(world).alive@,
            world.player@ == old(world).player@,
            world.monster@ == old(world).monster@,
            world.blocks_tile@ == old(world).blocks_tile@,
            world.combat_stats@ == old(world).combat_stats@,
            world.suffer_damage@ == old(world).suffer_damage@,
            world.name@ == old(world).name@,
            forall|e2: int|
                e <= e2 < n ==> #[trigger] world.position@[e2] == old(world).position@[e2],
            forall|e2: int|
                e <= e2 < n ==> #[trigger] world.viewshed@[e2] == old(world).viewshed@[e2],
            forall|e2: int|
                e <= e2 < n ==> #[trigger] world.wants_to_melee@[e2] == old(world).wants_to_melee@[e2],
            forall|e2: int|
                0 <= e2 < e && !ai_chases(*old(world), e2, p as int)
                    ==> #[trigger] world.position@[e2] == old(world).position@[e2],
            forall|e2: int|
                0 <= e2 < e && !ai_chases(*old(world), e2, p as int)
                    ==> #[trigger] world.viewshed@[e2] == old(world).viewshed@[e2],
            forall|e2: int|
                0 <= e2 < e && ai_stands(*old(world), e2, p as int)
                    ==> #[trigger] world.wants_to_melee@[e2] == (Option::Some(
                    WantsToMelee { target: p },
                )),
            forall|e2: int|
                0 <= e2 < e && !ai_stands(*old(world), e2, p as int)
                    ==> #[trigger] world.wants_to_melee@[e2] == old(world).wants_to_melee@[e2],
            forall|e2: int|
                #![trigger world.position@[e2]]
                0 <= e2 < e && ai_chases(*old(world), e2, p as int) ==> chase_outcome(
                    *map,
                    *old(world),
                    *world,
                    e2,
                    p as int,
                ),
        decreases n - e,
    {
        let ghost w_pre = *world;
        let is_actor = world.alive[e] && world.monster[e] && world.viewshed[e].is_some()
            && world.position[e].is_some() && e != p;
        if is_actor {
            let pos = world.position[e].unwrap();
            let sees = match &world.viewshed[e] {
                Option::Some(v) => contains_point(&v.visible_tiles, ppos.x, ppos.y),
                Option::None => false,
            };
            proof {
                assert(acts(*old(world), e as int, p as int));
                assert(sees == sees_tile(*old(world), e as int, ppos.x as int, ppos.y as int));
                assert(old(world).position@[p as int]->Some_0 == ppos);
                assert(old(world).position@[e as int]->Some_0 == pos);
            }
            if sees {
                let dx = pos.x - ppos.x;
                let dy = pos.y - ppos.y;
                if -1 <= dx && dx <= 1 && -1 <= dy && dy <= 1 {
                    world.wants_to_melee[e] = Option::Some(WantsToMelee { target: p });
                    proof {
                        assert(within_melee(
                            pos.x as int,
                            pos.y as int,
                            ppos.x as int,
                            ppos.y as int,
                        ));
                        assert(world.position@[e as int] == old(world).position@[e as int]);
                        assert(world.viewshed@[e as int] == old(world).viewshed@[e as int]);
                        assert(world.wants_to_melee@[e as int] == Option::Some(
                            WantsToMelee { target: p },
                        ));
                    }
                } else {
                    let step = monster_step(map, pos.x, pos.y, ppos.x, ppos.y);
                    proof {
                        assert(ai_chases(*old(world), e as int, p as int));
                    }
                    if step.is_some() {
                        let (vx, vy) = step.unwrap();
                        proof {
                            crate::map::lemma_idx_bounds(
                                map.width as int,
                                map.height as int,
                                vx as int,
                                vy as int,
                            );
                            assert(!map.blocked@[map.idx_of(vx as int, vy as int)]);
                            assert(map.tiles@[map.idx_of(vx as int, vy as int)] != TileType::Wall);
                        }
                        world.position[e] = Option::Some(Position { x: vx, y: vy });
                        let ghost vs_pre = world.viewshed@;
                        proof {
                            assert(vs_pre[e as int] is Some);
                        }
                        match &mut world.viewshed[e] {
                            Option::Some(v) => {
                                v.dirty = true;
                            },
                            Option::None => {},
                        }
                        proof {
                            assert(world.viewshed@[e as int] is Some);
                            assert(world.viewshed@[e as int]->Some_0.dirty);
                            assert(world.viewshed@[e as int]->Some_0.visible_tiles == vs_pre[e
                                as int]->Some_0.visible_tiles);
                            assert(world.viewshed@[e as int]->Some_0.range == vs_pre[e
                                as int]->Some_0.range);
                            assert(world.position@[e as int] == Option::Some(
                                Position { x: vx, y: vy },
                            ));
                            assert(adjacent8(
                                (pos.x as int, pos.y as int),
                                (vx as int, vy as int),
                            ));
                            assert(world.position@[e as int] != old(world).position@[e as int]);
                            assert(chase_outcome(*map, *old(world), *world, e as int, p as int));
                        }
                    } else {
                        proof {
                            assert(world.position@[e as int] == old(world).position@[e as int]);
                            assert(chase_outcome(*map, *old(world), *world, e as int, p as int));
                        }
                    }
                }
            }
        }
        proof {
            assert(world.suffer_damage@ == w_pre.suffer_damage@);
            assert forall|e2: int, k2: int|
                0 <= e2 < world.num() && 0 <= k2 < world.pending_damage(e2).len() implies
                #[trigger] world.pending_damage(e2)[k2] >= 0 by {
                assert(world.pending_damage(e2) == w_pre.pending_damage(e2));
            }
            assert forall|e2: int|
                0 <= e2 < world.num() && #[trigger] world.wants_to_melee@[e2] is Some implies 0
                <= world.wants_to_melee@[e2]->Some_0.target < world.num() by {
                if world.wants_to_melee@[e2] == w_pre.wants_to_melee@[e2] {
                    assert(w_pre.wf());
                }
            }
            assert forall|e2: int|
                0 <= e2 < world.num() && #[trigger] world.viewshed@[e2] is Some implies 0
                <= world.viewshed@[e2]->Some_0.range <= 4096 by {
                if world.viewshed@[e2] == w_pre.viewshed@[e2] {
                    assert(w_pre.wf());
                } else {
                    assert(w_pre.viewshed@[e2] is Some);
                    assert(world.viewshed@[e2]->Some_0.range == w_pre.viewshed@[e2]->Some_0.range);
                }
            }
            assert forall|e2: int|
                0 <= e2 < world.num() && world.alive@[e2] && #[trigger] world.position@[e2] is Some implies map.in_bounds(
                world.position@[e2]->Some_0.x as int,
                world.position@[e2]->Some_0.y as int,
            ) by {
                if world.position@[e2] == w_pre.position@[e2] {
                    assert(positions_in_bounds(w_pre, *map));
                }
            }
            assert forall|e2: int|
                #![trigger world.position@[e2]]
                0 <= e2 < e + 1 && ai_chases(*old(world), e2, p as int) implies chase_outcome(
                *map,
                *old(world),
                *world,
                e2,
                p as int,
            ) by {
                if e2 < e {
                    assert(chase_outcome(*map, *old(world), w_pre, e2, p as int));
                    assert(world.position@[e2] == w_pre.position@[e2]);
                    assert(world.viewshed@[e2] == w_pre.viewshed@[e2]);
                }
            }
        }
        e = e + 1;
    }
    proof {
        assert forall|p2: int| is_live_player(*old(world), p2) implies p2 == p as int by {
            assert(old(world).player@[p2]);
            assert(old(world).player@[p as int]);
        }
    }
}

} // verus!
