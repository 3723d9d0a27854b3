//! Reachability over a rectangular grid: paths of king-move steps through
//! passable tiles. The dungeon generator proves every room reachable from the
//! first through carved floor, and the monster pathfinder proves its step
//! optimal, against the same definitions. A grid is a `Seq<bool>` of
//! per-tile passability in the map's row-major order.

use vstd::prelude::*;

use crate::map::{spec_max, spec_min};

verus! {

pub open spec fn abs_diff(a: int, b: int) -> int {
    if a < b {
        b - a
    } else {
        a - b
    }
}

pub open spec fn pos_in_bounds(w: int, h: int, p: (int, int)) -> bool {
    0 <= p.0 < w && 0 <= p.1 < h
}

pub open spec fn pidx(w: int, p: (int, int)) -> int {
    p.1 * w + p.0
}

pub open spec fn passable_at(w: int, h: int, pass: Seq<bool>, p: (int, int)) -> bool {
    pos_in_bounds(w, h, p) && pass[pidx(w, p)]
}

/// One king move: the two positions differ, and each coordinate by at most one.
pub open spec fn adjacent8(a: (int, int), b: (int, int)) -> bool {
    a != b && -1 <= a.0 - b.0 <= 1 && -1 <= a.1 - b.1 <= 1
}

/// A walk from `a` to `b`: consecutive positions adjacent, and every position
/// after the start passable. The start itself need not be passable, so an
/// actor standing on a tile its own body blocks can still walk away from it.
pub open spec fn is_path(w: int, h: int, pass: Seq<bool>, s: Seq<(int, int)>, a: (int, int), b: (
    int,
    int,
)) -> bool {
    &&& s.len() >= 1
    &&& s[0] == a
    &&& s[s.len() - 1] == b
    &&& forall|i: int| 0 <= i < s.len() - 1 ==> adjacent8(#[trigger] s[i], s[i + 1])
    &&& forall|i: int| 1 <= i < s.len() ==> passable_at(w, h, pass, #[trigger] s[i])
}

pub open spec fn reachable(w: int, h: int, pass: Seq<bool>, a: (int, int), b: (int, int)) -> bool {
    exists|s: Seq<(int, int)>| is_path(w, h, pass, s, a, b)
}

pub proof fn lemma_reach_refl(w: int, h: int, pass: Seq<bool>, a: (int, int))
    ensures
        reachable(w, h, pass, a, a),
{
    let s = seq![a];
    assert(is_path(w, h, pass, s, a, a));
}

/// Extending a walk by one passable adjacent tile keeps it a walk.
pub proof fn lemma_reach_step(w: int, h: int, pass: Seq<bool>, a: (int, int), b: (int, int), c: (
    int,
    int,
))
    requires
        reachable(w, h, pass, a, b),
        adjacent8(b, c),
        passable_at(w, h, pass, c),
    ensures
        reachable(w, h, pass, a, c),
{
    let s = choose|s: Seq<(int, int)>| is_path(w, h, pass, s, a, b);
    let s2 = s.push(c);
    assert forall|i: int| 0 <= i < s2.len() - 1 implies adjacent8(#[trigger] s2[i], s2[i + 1]) by {
        if i < s.len() - 1 {
            assert(s2[i] == s[i] && s2[i + 1] == s[i + 1]);
        } else {
            assert(s2[i] == b && s2[i + 1] == c);
        }
    }
    assert(is_path(w, h, pass, s2, a, c));
}

/// Walks compose.
pub proof fn lemma_reach_trans(
    w: int,
    h: int,
    pass: Seq<bool>,
    a: (int, int),
    b: (int, int),
    c: (int, int),
)
    requires
        reachable(w, h, pass, a, b),
        reachable(w, h, pass, b, c),
    ensures
        reachable(w, h, pass, a, c),
{
    let s1 = choose|s: Seq<(int, int)>| is_path(w, h, pass, s, a, b);
    let s2 = choose|s: Seq<(int, int)>| is_path(w, h, pass, s, b, c);
    let s3 = s1 + s2.subrange(1, s2.len() as int);
    assert forall|i: int| 0 <= i < s3.len() - 1 implies adjacent8(#[trigger] s3[i], s3[i + 1]) by {
        if i < s1.len() - 1 {
            assert(s3[i] == s1[i] && s3[i + 1] == s1[i + 1]);
        } else if i == s1.len() - 1 {
            if s2.len() >= 2 {
                assert(s3[i] == b && s3[i + 1] == s2[1]);
            }
        } else {
            let j = i - s1.len() + 1;
            assert(s3[i] == s2[j] && s3[i + 1] == s2[j + 1]);
        }
    }
    assert forall|i: int| 1 <= i < s3.len() implies passable_at(w, h, pass, #[trigger] s3[i]) by {
        if i < s1.len() {
            assert(s3[i] == s1[i]);
        } else {
            let j = i - s1.len() + 1;
            assert(s3[i] == s2[j]);
        }
    }
    assert(s3[0] == a);
    assert(s3[s3.len() - 1] == c);
    assert(is_path(w, h, pass, s3, a, c));
}

/// Making more tiles passable never severs a walk.
pub proof fn lemma_reach_monotone(
    w: int,
    h: int,
    pass1: Seq<bool>,
    pass2: Seq<bool>,
    a: (int, int),
    b: (int, int),
)
    requires
        reachable(w, h, pass1, a, b),
        pass1.len() == w * h,
        pass1.len() == pass2.len(),
        forall|i: int| 0 <= i < pass1.len() && pass1[i] ==> pass2[i],
    ensures
        reachable(w, h, pass2, a, b),
{
    let s = choose|s: Seq<(int, int)>| is_path(w, h, pass1, s, a, b);
    assert forall|i: int| 1 <= i < s.len() implies passable_at(w, h, pass2, #[trigger] s[i]) by {
        assert(passable_at(w, h, pass1, s[i]));
        let p = s[i];
        crate::map::lemma_idx_bounds(w, h, p.0, p.1);
        assert(pass1[pidx(w, p)]);
        assert(pass2[pidx(w, p)]);
    }
    assert(is_path(w, h, pass2, s, a, b));
}

/// A tile index splits back into its column and row.
pub proof fn lemma_div_mod_grid(k: int, w: int, h: int)
    by (nonlinear_arith)
    requires
        0 < w,
        0 < h,
        0 <= k < w * h,
    ensures
        0 <= k % w < w,
        0 <= k / w < h,
        (k / w) * w + k % w == k,
{
}

/// Tile-wise floor growth makes the whole floor mask grow.
pub proof fn lemma_mask_monotone_from_tiles(m1: crate::map::GameMap, m2: crate::map::GameMap)
    requires
        m1.wf(),
        m2.wf(),
        m1.width == m2.width,
        m1.height == m2.height,
        forall|x: int, y: int|
            m1.in_bounds(x, y) && m1.is_floor(x, y) ==> #[trigger] m2.is_floor(x, y),
    ensures
        forall|k: int|
            0 <= k < m1.floor_mask().len() && m1.floor_mask()[k] ==> #[trigger] m2.floor_mask()[k],
{
    let w = m1.width as int;
    let h = m1.height as int;
    assert forall|k: int|
        0 <= k < m1.floor_mask().len() && m1.floor_mask()[k] implies #[trigger] m2.floor_mask()[k] by {
        lemma_div_mod_grid(k, w, h);
        let x = k % w;
        let y = k / w;
        assert(m1.idx_of(x, y) == k);
        assert(m1.is_floor(x, y));
        assert(m2.is_floor(x, y));
        assert(m2.idx_of(x, y) == k);
    }
}

/// The floor mask is passable exactly at floor tiles.
pub proof fn lemma_floor_mask_at(m: crate::map::GameMap, x: int, y: int)
    requires
        m.wf(),
        m.in_bounds(x, y),
    ensures
        passable_at(m.width as int, m.height as int, m.floor_mask(), (x, y)) == m.is_floor(x, y),
{
    crate::map::lemma_idx_bounds(m.width as int, m.height as int, x, y);
}

/// A fully passable horizontal run is walkable end to end.
pub proof fn lemma_horizontal_reach(w: int, h: int, pass: Seq<bool>, y: int, xa: int, xb: int)
    requires
        0 <= y < h,
        0 <= xa < w,
        0 <= xb < w,
        forall|x: int|
            spec_min(xa, xb) <= x <= spec_max(xa, xb) ==> passable_at(w, h, pass, (x, y)),
    ensures
        reachable(w, h, pass, (xa, y), (xb, y)),
    decreases abs_diff(xa, xb),
{
    if xa == xb {
        lemma_reach_refl(w, h, pass, (xa, y));
    } else if xa < xb {
        lemma_horizontal_reach(w, h, pass, y, xa, xb - 1);
        assert(passable_at(w, h, pass, ((xb - 1) as int, y)));
        lemma_reach_step(w, h, pass, (xa, y), (xb - 1, y), (xb, y));
    } else {
        lemma_horizontal_reach(w, h, pass, y, xa, xb + 1);
        assert(passable_at(w, h, pass, ((xb + 1) as int, y)));
        lemma_reach_step(w, h, pass, (xa, y), (xb + 1, y), (xb, y));
    }
}

/// A fully passable vertical run is walkable end to end.
pub proof fn lemma_vertical_reach(w: int, h: int, pass: Seq<bool>, x: int, ya: int, yb: int)
    requires
        0 <= x < w,
        0 <= ya < h,
        0 <= yb < h,
        forall|y: int|
            spec_min(ya, yb) <= y <= spec_max(ya, yb) ==> passable_at(w, h, pass, (x, y)),
    ensures
        reachable(w, h, pass, (x, ya), (x, yb)),
    decreases abs_diff(ya, yb),
{
    if ya == yb {
        lemma_reach_refl(w, h, pass, (x, ya));
    } else if ya < yb {
        lemma_vertical_reach(w, h, pass, x, ya, yb - 1);
        assert(passable_at(w, h, pass, (x, (yb - 1) as int)));
        lemma_reach_step(w, h, pass, (x, ya), (x, yb - 1), (x, yb));
    } else {
        lemma_vertical_reach(w, h, pass, x, ya, yb + 1);
        assert(passable_at(w, h, pass, (x, (yb + 1) as int)));
        lemma_reach_step(w, h, pass, (x, ya), (x, yb + 1), (x, yb));
    }
}

} // verus!
